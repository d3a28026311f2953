//! The wire protocol: one pipe-delimited frame per message.
//!
//! Every message starts with a kind token, then `from` and `to` addresses,
//! then the kind's own fields, all joined with `|`. Payload fields must not
//! contain `|`; alphabets and hex digests satisfy this by construction. A
//! frame that does not parse is dropped by the caller.

use vstd::prelude::*;
use vstd::string::*;
use vstd::math::max;
use crate::alpha::{
    wf_alphabet, in_alpha, str_index, num_digits, index_to_str, str_eq, find_pos,
    lemma_str_index_injective, lemma_str_index_step, lemma_str_index_prefix, lemma_pos_in,
};

verus! {

/// The decimal digits, as an alphabet for the index machinery.
pub open spec fn dec_alpha() -> Seq<char> {
    "0123456789"@
}

/// The decimal digits are a usable alphabet.
pub proof fn lemma_dec_alpha()
    ensures
        wf_alphabet(dec_alpha()),
        dec_alpha().len() == 10,
        dec_alpha()[0] == '0',
{
    reveal_strlit("0123456789");
    let d = dec_alpha();
    assert(d[0] == '0' && d[1] == '1' && d[2] == '2' && d[3] == '3' && d[4] == '4' && d[5] == '5'
        && d[6] == '6' && d[7] == '7' && d[8] == '8' && d[9] == '9');
    assert forall|i: int, j: int| 0 <= i < j < 10 implies d[i] != d[j] by {
        assert(i == 0 || i == 1 || i == 2 || i == 3 || i == 4 || i == 5 || i == 6 || i == 7 || i
            == 8 || i == 9);
        assert(j == 0 || j == 1 || j == 2 || j == 3 || j == 4 || j == 5 || j == 6 || j == 7 || j
            == 8 || j == 9);
    }
}

/// The decimal rendering of `n`: digits only, no leading zero, one digit
/// for zero itself.
pub open spec fn dec_seq(n: int) -> Seq<char> {
    choose|d: Seq<char>|
        in_alpha(dec_alpha(), d) && str_index(dec_alpha(), d) == n && d.len() == max(
            1,
            num_digits(10, n) as int,
        )
}

/// Renders a number in decimal.
pub fn u32_to_dec(n: u32) -> (s: String)
    ensures
        s@ == dec_seq(n as int),
        in_alpha(dec_alpha(), s@),
        str_index(dec_alpha(), s@) == n,
        s@.len() == max(1, num_digits(10, n as int) as int),
{
    proof {
        lemma_dec_alpha();
    }
    let s = index_to_str("0123456789", n as usize, 1);
    proof {
        let d = dec_seq(n as int);
        assert(in_alpha(dec_alpha(), s@) && str_index(dec_alpha(), s@) == n && s@.len() == max(
            1,
            num_digits(10, n as int) as int,
        ));
        assert(in_alpha(dec_alpha(), d) && str_index(dec_alpha(), d) == n && d.len() == max(
            1,
            num_digits(10, n as int) as int,
        ));
        lemma_str_index_injective(dec_alpha(), s@, d);
    }
    s
}

/// A well-formed decimal field: digits only, at least one, and a value
/// that fits a `u32`.
pub open spec fn is_dec_u32(s: Seq<char>) -> bool {
    &&& in_alpha(dec_alpha(), s)
    &&& s.len() >= 1
    &&& str_index(dec_alpha(), s) <= u32::MAX
}

/// Reads a decimal field strictly: a field with anything but digits, an
/// empty field, or a value over `u32` yields nothing.
pub fn parse_u32_field(s: &str) -> (n: Option<u32>)
    ensures
        match n {
            Some(v) => is_dec_u32(s@) && v == str_index(dec_alpha(), s@),
            None => !is_dec_u32(s@),
        },
{
    proof {
        lemma_dec_alpha();
    }
    let len = s.unicode_len();
    if len == 0 {
        return None;
    }
    let ghost d = dec_alpha();
    let mut acc: u64 = 0;
    let mut i: usize = 0;
    while i < len
        invariant
            len == s@.len(),
            i <= len,
            wf_alphabet(dec_alpha()),
            dec_alpha().len() == 10,
            in_alpha(dec_alpha(), s@.subrange(0, i as int)),
            acc == str_index(dec_alpha(), s@.subrange(0, i as int)),
            acc <= u32::MAX,
        decreases len - i,
    {
        let c = s.get_char(i);
        let p = match find_pos("0123456789", c) {
            Some(p) => p,
            None => {
                proof {
                    reveal_strlit("0123456789");
                    assert(!dec_alpha().contains(c));
                    assert(!in_alpha(dec_alpha(), s@)) by {
                        assert(s@[i as int] == c);
                    }
                }
                return None;
            },
        };
        proof {
            reveal_strlit("0123456789");
            assert(dec_alpha().contains(c)) by {
                assert(dec_alpha()[p as int] == c);
            }
            lemma_pos_in(dec_alpha(), c);
            assert(p == crate::alpha::pos_in(dec_alpha(), c));
            let u = s@.subrange(0, i as int);
            let v = s@.subrange(0, i + 1);
            assert(v.drop_last() =~= u);
            assert(v.last() == s@[i as int]);
            lemma_str_index_step(dec_alpha(), v);
            assert(in_alpha(dec_alpha(), v)) by {
                assert(forall|j: int| 0 <= j < u.len() ==> v[j] == u[j]);
            }
        }
        acc = acc * 10 + (p as u64);
        if acc > (u32::MAX as u64) {
            proof {
                if in_alpha(dec_alpha(), s@) && str_index(dec_alpha(), s@) <= u32::MAX {
                    lemma_str_index_prefix(dec_alpha(), s@, i + 1);
                }
            }
            return None;
        }
        i += 1;
    }
    proof {
        assert(s@.subrange(0, len as int) =~= s@);
    }
    Some(acc as u32)
}

/// The fields of a frame, joined with the separator.
pub open spec fn joined(fields: Seq<Seq<char>>) -> Seq<char>
    decreases fields.len(),
{
    if fields.len() == 0 {
        Seq::empty()
    } else if fields.len() == 1 {
        fields[0]
    } else {
        fields[0] + seq!['|'] + joined(fields.drop_first())
    }
}

/// No field holds the separator.
pub open spec fn no_pipes(fields: Seq<Seq<char>>) -> bool {
    forall|i: int| 0 <= i < fields.len() ==> !(#[trigger] fields[i]).contains('|')
}

/// The views of a list of strings.
pub open spec fn string_views(fields: Seq<String>) -> Seq<Seq<char>> {
    fields.map_values(|f: String| f@)
}

/// Appending one more field appends a separator and the field.
pub proof fn lemma_joined_push(fields: Seq<Seq<char>>, x: Seq<char>)
    requires
        fields.len() >= 1,
    ensures
        joined(fields.push(x)) == joined(fields) + seq!['|'] + x,
    decreases fields.len(),
{
    let s = fields.push(x);
    if fields.len() == 1 {
        assert(s.drop_first() =~= seq![x]);
        assert(joined(seq![x]) == x);
        assert(joined(s) == fields[0] + seq!['|'] + x);
        assert(joined(fields) == fields[0]);
    } else {
        assert(s.drop_first() =~= fields.drop_first().push(x));
        lemma_joined_push(fields.drop_first(), x);
        assert((fields[0] + seq!['|'] + (joined(fields.drop_first()) + seq!['|'] + x)) =~= (
        fields[0] + seq!['|'] + joined(fields.drop_first())) + seq!['|'] + x);
    }
}

/// Splits a frame at every separator; the pieces hold no separator and
/// join back to the frame.
pub fn split_fields(s: &str) -> (fields: Vec<String>)
    ensures
        fields@.len() >= 1,
        no_pipes(string_views(fields@)),
        joined(string_views(fields@)) == s@,
{
    let n = s.unicode_len();
    let mut fields: Vec<String> = Vec::new();
    let mut cur = String::new();
    let mut i: usize = 0;
    while i < n
        invariant
            n == s@.len(),
            i <= n,
            no_pipes(string_views(fields@)),
            !cur@.contains('|'),
            joined(string_views(fields@).push(cur@)) == s@.subrange(0, i as int),
        decreases n - i,
    {
        let c = s.get_char(i);
        let ghost pre_fields = string_views(fields@);
        let ghost pre_cur = cur@;
        if c == '|' {
            fields.push(cur);
            cur = String::new();
            proof {
                assert(string_views(fields@) =~= pre_fields.push(pre_cur));
                assert(string_views(fields@).push(cur@) =~= pre_fields.push(pre_cur).push(
                    Seq::<char>::empty(),
                ));
                lemma_joined_push(pre_fields.push(pre_cur), Seq::<char>::empty());
                assert(joined(pre_fields.push(pre_cur)) + seq!['|'] + Seq::<char>::empty() =~= s@.subrange(
                    0,
                    i + 1,
                ));
            }
        } else {
            crate::alpha::push_char(&mut cur, c);
            proof {
                assert(string_views(fields@).push(cur@) =~= pre_fields.push(pre_cur.push(c)));
                if pre_fields.len() == 0 {
                    assert(joined(seq![pre_cur.push(c)]) == pre_cur.push(c));
                    assert(joined(seq![pre_cur]) == pre_cur);
                    assert(pre_cur.push(c) =~= s@.subrange(0, i + 1));
                } else {
                    lemma_joined_push(pre_fields, pre_cur.push(c));
                    lemma_joined_push(pre_fields, pre_cur);
                    assert(joined(pre_fields) + seq!['|'] + pre_cur.push(c) =~= s@.subrange(
                        0,
                        i + 1,
                    ));
                }
                assert(!cur@.contains('|')) by {
                    assert(forall|j: int|
                        0 <= j < pre_cur.len() ==> #[trigger] pre_cur.push(c)[j] == pre_cur[j]);
                }
            }
        }
        i += 1;
    }
    let ghost end_fields = string_views(fields@);
    let ghost end_cur = cur@;
    fields.push(cur);
    proof {
        assert(string_views(fields@) =~= end_fields.push(end_cur));
        assert(s@.subrange(0, n as int) =~= s@);
        assert forall|t: int| 0 <= t < string_views(fields@).len() implies !(#[trigger] string_views(
            fields@,
        )[t]).contains('|') by {
            if t < end_fields.len() {
                assert(string_views(fields@)[t] == end_fields[t]);
            }
        }
    }
    fields
}

/// One parsed frame of the protocol.
pub enum ParsedMessage {
    Ping(PingMessage),
    Ack(AckMessage),
    Calc(CalculatePowerMessage),
    CalcResponse(CalculateResponseMessage),
    Solve(SolveProblemMessage),
    SolveResponse(SolveResponseMessage),
    Stop(StopMessage),
}

/// A message names its endpoints and serializes to one frame.
pub trait Message {
    /// The sender's address.
    spec fn from_spec(&self) -> Seq<char>;

    /// The receiver's address.
    spec fn to_spec(&self) -> Seq<char>;

    /// The frame this message serializes to.
    spec fn wire_spec(&self) -> Seq<char>;

    fn from(&self) -> (r: &str)
        ensures
            r@ == self.from_spec(),
    ;

    fn to(&self) -> (r: &str)
        ensures
            r@ == self.to_spec(),
    ;

    fn serialize(&self) -> (r: String)
        ensures
            r@ == self.wire_spec(),
    ;
}

/// A liveness probe; answered with an acknowledgement.
#[derive(Debug)]
pub struct PingMessage {
    pub from: String,
    pub to: String,
}

impl Message for PingMessage {
    open spec fn from_spec(&self) -> Seq<char> {
        self.from@
    }

    open spec fn to_spec(&self) -> Seq<char> {
        self.to@
    }

    open spec fn wire_spec(&self) -> Seq<char> {
        "PING|"@ + self.from@ + "|"@ + self.to@
    }

    fn from(&self) -> (r: &str) {
        self.from.as_str()
    }

    fn to(&self) -> (r: &str) {
        self.to.as_str()
    }

    fn serialize(&self) -> (r: String) {
        let mut s = String::from_str("PING|");
        s.append(self.from.as_str());
        s.append("|");
        s.append(self.to.as_str());
        s
    }
}

/// The generic acknowledgement reply.
#[derive(Debug)]
pub struct AckMessage {
    pub from: String,
    pub to: String,
}

impl Message for AckMessage {
    open spec fn from_spec(&self) -> Seq<char> {
        self.from@
    }

    open spec fn to_spec(&self) -> Seq<char> {
        self.to@
    }

    open spec fn wire_spec(&self) -> Seq<char> {
        "ACK|"@ + self.from@ + "|"@ + self.to@
    }

    fn from(&self) -> (r: &str) {
        self.from.as_str()
    }

    fn to(&self) -> (r: &str) {
        self.to.as_str()
    }

    fn serialize(&self) -> (r: String) {
        let mut s = String::from_str("ACK|");
        s.append(self.from.as_str());
        s.append("|");
        s.append(self.to.as_str());
        s
    }
}

/// Asks the receiver to aggregate its subtree's compute power.
#[derive(Debug)]
pub struct CalculatePowerMessage {
    pub from: String,
    pub to: String,
}

impl Message for CalculatePowerMessage {
    open spec fn from_spec(&self) -> Seq<char> {
        self.from@
    }

    open spec fn to_spec(&self) -> Seq<char> {
        self.to@
    }

    open spec fn wire_spec(&self) -> Seq<char> {
        "CALC|"@ + self.from@ + "|"@ + self.to@
    }

    fn from(&self) -> (r: &str) {
        self.from.as_str()
    }

    fn to(&self) -> (r: &str) {
        self.to.as_str()
    }

    fn serialize(&self) -> (r: String) {
        let mut s = String::from_str("CALC|");
        s.append(self.from.as_str());
        s.append("|");
        s.append(self.to.as_str());
        s
    }
}

/// Answers a power aggregation with the subtree's total.
#[derive(Debug)]
pub struct CalculateResponseMessage {
    pub from: String,
    pub to: String,
    pub power: u32,
}

impl Message for CalculateResponseMessage {
    open spec fn from_spec(&self) -> Seq<char> {
        self.from@
    }

    open spec fn to_spec(&self) -> Seq<char> {
        self.to@
    }

    open spec fn wire_spec(&self) -> Seq<char> {
        "CALC_RESPONSE|"@ + self.from@ + "|"@ + self.to@ + "|"@ + dec_seq(self.power as int)
    }

    fn from(&self) -> (r: &str) {
        self.from.as_str()
    }

    fn to(&self) -> (r: &str) {
        self.to.as_str()
    }

    fn serialize(&self) -> (r: String) {
        let mut s = String::from_str("CALC_RESPONSE|");
        s.append(self.from.as_str());
        s.append("|");
        s.append(self.to.as_str());
        s.append("|");
        let digits = u32_to_dec(self.power);
        s.append(digits.as_str());
        s
    }
}

/// Hands a sub-range of the search down the tree.
#[derive(Debug)]
pub struct SolveProblemMessage {
    pub from: String,
    pub to: String,
    pub alphabet: String,
    pub start: String,
    pub end: String,
    pub hash: String,
}

impl Message for SolveProblemMessage {
    open spec fn from_spec(&self) -> Seq<char> {
        self.from@
    }

    open spec fn to_spec(&self) -> Seq<char> {
        self.to@
    }

    open spec fn wire_spec(&self) -> Seq<char> {
        "SOLVE|"@ + self.from@ + "|"@ + self.to@ + "|"@ + self.alphabet@ + "|"@ + self.start@
            + "|"@ + self.end@ + "|"@ + self.hash@
    }

    fn from(&self) -> (r: &str) {
        self.from.as_str()
    }

    fn to(&self) -> (r: &str) {
        self.to.as_str()
    }

    fn serialize(&self) -> (r: String) {
        let mut s = String::from_str("SOLVE|");
        s.append(self.from.as_str());
        s.append("|");
        s.append(self.to.as_str());
        s.append("|");
        s.append(self.alphabet.as_str());
        s.append("|");
        s.append(self.start.as_str());
        s.append("|");
        s.append(self.end.as_str());
        s.append("|");
        s.append(self.hash.as_str());
        s
    }
}

/// Reports a finished or interrupted search of `[start, end]` back up
/// the tree; an empty solution field means none was found.
#[derive(Debug)]
pub struct SolveResponseMessage {
    pub from: String,
    pub to: String,
    pub start: String,
    pub end: String,
    pub solution: Option<String>,
    pub space_searched: bool,
}

impl Message for SolveResponseMessage {
    open spec fn from_spec(&self) -> Seq<char> {
        self.from@
    }

    open spec fn to_spec(&self) -> Seq<char> {
        self.to@
    }

    open spec fn wire_spec(&self) -> Seq<char> {
        "SOLVE_RESPONSE|"@ + self.from@ + "|"@ + self.to@ + "|"@ + self.start@ + "|"@ + self.end@
            + "|"@ + (match self.solution {
            Some(sol) => sol@,
            None => Seq::empty(),
        }) + "|"@ + (if self.space_searched {
            "true"@
        } else {
            "false"@
        })
    }

    fn from(&self) -> (r: &str) {
        self.from.as_str()
    }

    fn to(&self) -> (r: &str) {
        self.to.as_str()
    }

    fn serialize(&self) -> (r: String) {
        let mut s = String::from_str("SOLVE_RESPONSE|");
        s.append(self.from.as_str());
        s.append("|");
        s.append(self.to.as_str());
        s.append("|");
        s.append(self.start.as_str());
        s.append("|");
        s.append(self.end.as_str());
        s.append("|");
        match &self.solution {
            Some(sol) => {
                s.append(sol.as_str());
            },
            None => {},
        }
        s.append("|");
        if self.space_searched {
            s.append("true");
        } else {
            s.append("false");
        }
        proof {
            assert(s@ =~= self.wire_spec());
        }
        s
    }
}

/// Tells the whole subtree to stop searching.
#[derive(Debug)]
pub struct StopMessage {
    pub from: String,
    pub to: String,
}

impl Message for StopMessage {
    open spec fn from_spec(&self) -> Seq<char> {
        self.from@
    }

    open spec fn to_spec(&self) -> Seq<char> {
        self.to@
    }

    open spec fn wire_spec(&self) -> Seq<char> {
        "STOP|"@ + self.from@ + "|"@ + self.to@
    }

    fn from(&self) -> (r: &str) {
        self.from.as_str()
    }

    fn to(&self) -> (r: &str) {
        self.to.as_str()
    }

    fn serialize(&self) -> (r: String) {
        let mut s = String::from_str("STOP|");
        s.append(self.from.as_str());
        s.append("|");
        s.append(self.to.as_str());
        s
    }
}

/// Whether a field list is a well-formed frame of some kind.
pub open spec fn valid_frame(fs: Seq<Seq<char>>) -> bool {
    ||| (fs.len() == 3 && fs[0] == "PING"@)
    ||| (fs.len() == 3 && fs[0] == "ACK"@)
    ||| (fs.len() == 3 && fs[0] == "CALC"@)
    ||| (fs.len() == 4 && fs[0] == "CALC_RESPONSE"@ && is_dec_u32(fs[3]))
    ||| (fs.len() == 7 && fs[0] == "SOLVE"@)
    ||| (fs.len() == 7 && fs[0] == "SOLVE_RESPONSE"@)
    ||| (fs.len() == 3 && fs[0] == "STOP"@)
}

/// What parsing must return for the field list `fs` of the frame.
pub open spec fn parse_post(fs: Seq<Seq<char>>, r: Option<ParsedMessage>) -> bool {
    &&& (r is Some <==> valid_frame(fs))
    &&& match r {
        Some(pm) => match pm {
            ParsedMessage::Ping(m) => fs.len() == 3 && fs[0] == "PING"@ && m.from@ == fs[1]
                && m.to@ == fs[2],
            ParsedMessage::Ack(m) => fs.len() == 3 && fs[0] == "ACK"@ && m.from@ == fs[1] && m.to@
                == fs[2],
            ParsedMessage::Calc(m) => fs.len() == 3 && fs[0] == "CALC"@ && m.from@ == fs[1]
                && m.to@ == fs[2],
            ParsedMessage::CalcResponse(m) => fs.len() == 4 && fs[0] == "CALC_RESPONSE"@ && m.from@
                == fs[1] && m.to@ == fs[2] && is_dec_u32(fs[3]) && m.power == str_index(
                dec_alpha(),
                fs[3],
            ),
            ParsedMessage::Solve(m) => fs.len() == 7 && fs[0] == "SOLVE"@ && m.from@ == fs[1]
                && m.to@ == fs[2] && m.alphabet@ == fs[3] && m.start@ == fs[4] && m.end@ == fs[5]
                && m.hash@ == fs[6],
            ParsedMessage::SolveResponse(m) => fs.len() == 7 && fs[0] == "SOLVE_RESPONSE"@
                && m.from@ == fs[1] && m.to@ == fs[2] && m.start@ == fs[3] && m.end@ == fs[4] && (
            match m.solution {
                Some(sol) => sol@ == fs[5] && fs[5].len() >= 1,
                None => fs[5].len() == 0,
            }) && m.space_searched == (fs[6] == "true"@),
            ParsedMessage::Stop(m) => fs.len() == 3 && fs[0] == "STOP"@ && m.from@ == fs[1]
                && m.to@ == fs[2],
        },
        None => true,
    }
}

/// Parses one frame: splits it at the separators and reads the fields of
/// the kind its first token names. A malformed frame yields nothing.
pub fn parse_message(s: &str) -> (r: Option<ParsedMessage>)
    ensures
        exists|fs: Seq<Seq<char>>|
            no_pipes(fs) && joined(fs) == s@ && #[trigger] parse_post(fs, r),
{
    let fields = split_fields(s);
    let ghost fs = string_views(fields@);
    let k = fields.len();
    let r = if k == 3 && str_eq(fields[0].as_str(), "PING") {
        Some(
            ParsedMessage::Ping(
                PingMessage { from: fields[1].clone(), to: fields[2].clone() },
            ),
        )
    } else if k == 3 && str_eq(fields[0].as_str(), "ACK") {
        Some(
            ParsedMessage::Ack(AckMessage { from: fields[1].clone(), to: fields[2].clone() }),
        )
    } else if k == 3 && str_eq(fields[0].as_str(), "CALC") {
        Some(
            ParsedMessage::Calc(
                CalculatePowerMessage { from: fields[1].clone(), to: fields[2].clone() },
            ),
        )
    } else if k == 4 && str_eq(fields[0].as_str(), "CALC_RESPONSE") {
        match parse_u32_field(fields[3].as_str()) {
            Some(power) => Some(
                ParsedMessage::CalcResponse(
                    CalculateResponseMessage {
                        from: fields[1].clone(),
                        to: fields[2].clone(),
                        power,
                    },
                ),
            ),
            None => None,
        }
    } else if k == 7 && str_eq(fields[0].as_str(), "SOLVE") {
        Some(
            ParsedMessage::Solve(
                SolveProblemMessage {
                    from: fields[1].clone(),
                    to: fields[2].clone(),
                    alphabet: fields[3].clone(),
                    start: fields[4].clone(),
                    end: fields[5].clone(),
                    hash: fields[6].clone(),
                },
            ),
        )
    } else if k == 7 && str_eq(fields[0].as_str(), "SOLVE_RESPONSE") {
        let sol = if fields[5].as_str().unicode_len() == 0 {
            None
        } else {
            Some(fields[5].clone())
        };
        Some(
            ParsedMessage::SolveResponse(
                SolveResponseMessage {
                    from: fields[1].clone(),
                    to: fields[2].clone(),
                    start: fields[3].clone(),
                    end: fields[4].clone(),
                    solution: sol,
                    space_searched: str_eq(fields[6].as_str(), "true"),
                },
            ),
        )
    } else if k == 3 && str_eq(fields[0].as_str(), "STOP") {
        Some(
            ParsedMessage::Stop(StopMessage { from: fields[1].clone(), to: fields[2].clone() }),
        )
    } else {
        None
    };
    proof {
        assert(parse_post(fs, r));
    }
    r
}

} // verus!
