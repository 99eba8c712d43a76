//! The RESP wire codec: protocol values, their encoding to wire text, and
//! their decoding from the lines a connection handed us.

use vstd::prelude::*;
use vstd::utf8::encode_utf8;
use vstd::string::StringExecFns;
use vstd::string::StrSliceExecFns;
use crate::text::{trim_spec, trim_str, parse_i64, parse_i64_spec, dec_nat, dec_int, fmt_usize,
    fmt_i64, is_ws, is_digit, lemma_trim_id, lemma_trim_content_line, lemma_dec_nat_digits,
    lemma_dec_int_trim, lemma_parse_dec_int};
use vstd::seq_lib::lemma_flatten_concat;

verus! {

broadcast use vstd::seq::group_seq_axioms, vstd::std_specs::vec::group_vec_axioms;

/// A protocol value, as decoded from or encoded onto the wire.
#[derive(Debug, PartialEq, Eq, Hash)]
pub enum RespData {
    SimpleString(String),
    Error(String),
    Integer(i64),
    BulkString(String),
    Array(Vec<RespData>),
    Null,
}

/// The mathematical shape of a protocol value: strings as character
/// sequences, arrays as sequences of shapes.
pub enum RespModel {
    SimpleString(Seq<char>),
    Error(Seq<char>),
    Integer(int),
    BulkString(Seq<char>),
    Array(Seq<RespModel>),
    Null,
}

impl View for RespData {
    type V = RespModel;

    open spec fn view(&self) -> RespModel
        decreases self,
    {
        match self {
            RespData::SimpleString(s) => RespModel::SimpleString(s@),
            RespData::Error(e) => RespModel::Error(e@),
            RespData::Integer(n) => RespModel::Integer(*n as int),
            RespData::BulkString(s) => RespModel::BulkString(s@),
            RespData::Array(arr) => RespModel::Array(
                Seq::new(
                    arr@.len(),
                    |i: int|
                        if 0 <= i < arr@.len() {
                            arr[i]@
                        } else {
                            RespModel::Null
                        },
                ),
            ),
            RespData::Null => RespModel::Null,
        }
    }
}

impl DeepView for RespData {
    type V = RespModel;

    open spec fn deep_view(&self) -> RespModel {
        self.view()
    }
}

impl Clone for RespData {
    /// A deep copy: the clone has the very same shape as the original.
    fn clone(&self) -> (res: Self)
        ensures
            res@ == self@,
        decreases self,
    {
        match self {
            RespData::SimpleString(s) => RespData::SimpleString(s.clone()),
            RespData::Error(e) => RespData::Error(e.clone()),
            RespData::Integer(n) => RespData::Integer(*n),
            RespData::BulkString(s) => RespData::BulkString(s.clone()),
            RespData::Array(arr) => {
                let mut out: Vec<RespData> = Vec::new();
                let mut i: usize = 0;
                while i < arr.len()
                    invariant
                        0 <= i <= arr.len(),
                        *self == RespData::Array(*arr),
                        out@.len() == i,
                        forall|k: int| 0 <= k < i ==> (#[trigger] out@[k])@ == arr@[k]@,
                    decreases arr.len() - i,
                {
                    let item = &arr[i];
                    proof {
                        assert(decreases_to!(*arr => arr[i as int]));
                        assert(decreases_to!(*self => self->Array_0));
                        assert(*arr == self->Array_0);
                        assert(decreases_to!(*self => *item));
                    }
                    let c = item.clone();
                    out.push(c);
                    i = i + 1;
                }
                let res = RespData::Array(out);
                proof {
                    match (res@, self@) {
                        (RespModel::Array(copied), RespModel::Array(source)) => {
                            assert(copied =~= source);
                        },
                        _ => {
                            assert(false);
                        },
                    }
                }
                res
            },
            RespData::Null => RespData::Null,
        }
    }
}

/// The line terminator of the wire protocol.
pub open spec fn crlf() -> Seq<char> {
    seq!['\r', '\n']
}

/// The wire text of a protocol value:
/// `+text`, `-ERR text`, `:n`, `$len` then the text, `*count` then the
/// items, and `$-1` for Null, each line ending in CR LF. The length of a
/// bulk string counts its UTF-8 bytes.
pub open spec fn encode_spec(v: RespModel) -> Seq<char>
    decreases v, 0int,
{
    match v {
        RespModel::SimpleString(s) => seq!['+'] + s + crlf(),
        RespModel::Error(e) => seq!['-', 'E', 'R', 'R', ' '] + e + crlf(),
        RespModel::Integer(n) => seq![':'] + dec_int(n) + crlf(),
        RespModel::BulkString(s) => seq!['$'] + dec_nat(encode_utf8(s).len() as int) + crlf() + s
            + crlf(),
        RespModel::Array(items) => seq!['*'] + dec_nat(items.len() as int) + crlf()
            + encode_items(items, 0),
        RespModel::Null => seq!['$', '-', '1'] + crlf(),
    }
}

/// The wire text of the items of an array from index `i` on, in order.
pub open spec fn encode_items(items: Seq<RespModel>, i: int) -> Seq<char>
    decreases items, items.len() - i,
{
    if i < 0 || i >= items.len() {
        Seq::empty()
    } else {
        encode_spec(items[i]) + encode_items(items, i + 1)
    }
}

impl RespData {
    /// Appends the wire text of this value to `buf`.
    pub fn write(&self, buf: &mut String)
        ensures
            final(buf)@ == old(buf)@ + encode_spec(self@),
        decreases self,
    {
        match self {
            RespData::SimpleString(s) => {
                buf.append("+");
                buf.append(s.as_str());
                buf.append("\r\n");
                proof {
                    reveal_strlit("+");
                    reveal_strlit("\r\n");
                    assert(buf@ =~= old(buf)@ + encode_spec(self@));
                }
            },
            RespData::Error(e) => {
                buf.append("-ERR ");
                buf.append(e.as_str());
                buf.append("\r\n");
                proof {
                    reveal_strlit("-ERR ");
                    reveal_strlit("\r\n");
                    assert(buf@ =~= old(buf)@ + encode_spec(self@));
                }
            },
            RespData::Integer(n) => {
                let digits = fmt_i64(*n);
                buf.append(":");
                buf.append(digits.as_str());
                buf.append("\r\n");
                proof {
                    reveal_strlit(":");
                    reveal_strlit("\r\n");
                    assert(buf@ =~= old(buf)@ + encode_spec(self@));
                }
            },
            RespData::BulkString(s) => {
                let len = fmt_usize(s.as_str().as_bytes().len());
                buf.append("$");
                buf.append(len.as_str());
                buf.append("\r\n");
                buf.append(s.as_str());
                buf.append("\r\n");
                proof {
                    reveal_strlit("$");
                    reveal_strlit("\r\n");
                    assert(buf@ =~= old(buf)@ + encode_spec(self@));
                }
            },
            RespData::Array(arr) => {
                let ghost ms = (match self@ {
                    RespModel::Array(s) => s,
                    _ => Seq::empty(),
                });
                proof {
                    assert(self@ == RespModel::Array(ms));
                    assert(ms.len() == arr@.len());
                    assert(forall|i: int| 0 <= i < ms.len() ==> ms[i] == arr[i]@);
                }
                let count = fmt_usize(arr.len());
                buf.append("*");
                buf.append(count.as_str());
                buf.append("\r\n");
                proof {
                    reveal_strlit("*");
                    reveal_strlit("\r\n");
                    assert(buf@ =~= old(buf)@ + (seq!['*'] + dec_nat(ms.len() as int) + crlf()));
                }
                let mut idx: usize = 0;
                while idx < arr.len()
                    invariant
                        0 <= idx <= arr.len(),
                        *self == RespData::Array(*arr),
                        self@ == RespModel::Array(ms),
                        ms.len() == arr@.len(),
                        forall|i: int| 0 <= i < ms.len() ==> ms[i] == arr[i]@,
                        buf@ + encode_items(ms, idx as int) == old(buf)@ + (seq!['*'] + dec_nat(
                            ms.len() as int,
                        ) + crlf()) + encode_items(ms, 0),
                    decreases arr.len() - idx,
                {
                    let item = &arr[idx];
                    let ghost pre = buf@;
                    proof {
                        assert(decreases_to!(*arr => arr[idx as int]));
                        assert(decreases_to!(*self => self->Array_0));
                        assert(*arr == self->Array_0);
                        assert(decreases_to!(*self => *item));
                    }
                    item.write(buf);
                    proof {
                        assert(encode_items(ms, idx as int) == encode_spec(ms[idx as int])
                            + encode_items(ms, idx + 1));
                        assert(item@ == ms[idx as int]);
                        assert(buf@ + encode_items(ms, idx + 1) =~= pre + encode_items(
                            ms,
                            idx as int,
                        ));
                    }
                    idx = idx + 1;
                }
                proof {
                    assert(encode_items(ms, idx as int) =~= Seq::<char>::empty());
                    assert(buf@ =~= buf@ + encode_items(ms, idx as int));
                    assert(old(buf)@ + (seq!['*'] + dec_nat(ms.len() as int) + crlf())
                        + encode_items(ms, 0) =~= old(buf)@ + encode_spec(self@));
                }
            },
            RespData::Null => {
                buf.append("$-1\r\n");
                proof {
                    reveal_strlit("$-1\r\n");
                    assert(buf@ =~= old(buf)@ + encode_spec(self@));
                }
            },
        }
    }
}

// ---------------------------------------------------------------------------
// Decoding
// ---------------------------------------------------------------------------

/// A transport-level decode failure: a malformed or out-of-range integer
/// where a count or an integer value was declared. Such a failure is fatal
/// to the connection; it is never turned into a protocol Error value.
#[derive(Debug, PartialEq, Eq)]
pub enum DecodeError {
    InvalidInteger,
}

/// The value produced when input runs out or a line carries no known
/// type tag.
pub open spec fn unknown_model() -> RespModel {
    RespModel::Error("Unknown error"@)
}

/// The content line read after a `+` or `$` tag line: the next line,
/// trimmed, or an empty string when input has run out (consuming nothing).
pub open spec fn content_at(lines: Seq<Seq<char>>, p: int) -> (Seq<char>, int) {
    if 0 <= p < lines.len() {
        (trim_spec(lines[p]), p + 1)
    } else {
        (Seq::<char>::empty(), p)
    }
}

/// `p` forced into the interval from `lo` to `hi`.
pub open spec fn clamp_pos(lo: int, p: int, hi: int) -> int {
    if p < lo {
        lo
    } else if p > hi {
        hi
    } else {
        p
    }
}

/// How many lines remain to be consumed from position `pos`.
pub open spec fn rem_lines(lines: Seq<Seq<char>>, pos: int) -> int {
    if pos < 0 {
        lines.len() as int
    } else if pos > lines.len() {
        0
    } else {
        lines.len() - pos
    }
}

/// Decodes one protocol value starting at line `pos`: the value and the
/// position after it, or nothing on a malformed integer. At the end of
/// input the result is the `unknown_model` value, consuming nothing; a
/// line with no recognised tag also yields it, consuming that line.
pub open spec fn decode_at(lines: Seq<Seq<char>>, pos: int) -> Option<(RespModel, int)>
    decreases rem_lines(lines, pos), 0int, 0int,
{
    if pos < 0 || pos >= lines.len() {
        Some((unknown_model(), pos))
    } else {
        let l = trim_spec(lines[pos]);
        let p1 = pos + 1;
        if l.len() > 0 && l[0] == '+' {
            let (c, p2) = content_at(lines, p1);
            Some((RespModel::SimpleString(c), p2))
        } else if l.len() > 0 && l[0] == '$' {
            let (c, p2) = content_at(lines, p1);
            Some((RespModel::BulkString(c), p2))
        } else if l.len() > 0 && l[0] == '*' {
            match parse_i64_spec(trim_spec(l.skip(1))) {
                None => None,
                Some(n) => if n < 0 {
                    None
                } else {
                    match decode_list(lines, p1, n) {
                        None => None,
                        Some((items, p2)) => Some((RespModel::Array(items), p2)),
                    }
                },
            }
        } else if l.len() > 0 && l[0] == ':' {
            match parse_i64_spec(trim_spec(l.skip(1))) {
                None => None,
                Some(n) => Some((RespModel::Integer(n), p1)),
            }
        } else {
            Some((unknown_model(), p1))
        }
    }
}

/// Decodes `n` successive values starting at line `pos`.
pub open spec fn decode_list(lines: Seq<Seq<char>>, pos: int, n: int) -> Option<
    (Seq<RespModel>, int),
>
    decreases rem_lines(lines, pos), n, 1int,
{
    if n <= 0 {
        Some((Seq::<RespModel>::empty(), pos))
    } else {
        match decode_at(lines, pos) {
            None => None,
            Some((v, p2)) => {
                let p2c = clamp_pos(pos, p2, lines.len() as int);
                match decode_list(lines, p2c, n - 1) {
                    None => None,
                    Some((rest, p3)) => Some((seq![v] + rest, p3)),
                }
            },
        }
    }
}

/// A protocol reader over the lines a connection has handed in. Each raw
/// line consumed is appended verbatim to `raw_data`.
pub struct Resp {
    lines: Vec<String>,
    pos: usize,
    pub raw_data: String,
}

impl Resp {
    /// The input lines, as character sequences.
    pub closed spec fn lines_view(&self) -> Seq<Seq<char>> {
        self.lines.deep_view()
    }

    /// How many lines have been consumed.
    pub closed spec fn spec_pos(&self) -> int {
        self.pos as int
    }

    /// The text of `raw_data`: every raw line consumed so far, in order.
    pub closed spec fn raw_view(&self) -> Seq<char> {
        self.raw_data@
    }

    /// The reader never runs past its input, and `raw_data` holds exactly
    /// the raw lines consumed so far, in order.
    pub closed spec fn wf(&self) -> bool {
        &&& self.pos <= self.lines.len()
        &&& self.raw_data@ == self.lines_view().take(self.pos as int).flatten()
    }

    /// A reader over the given input lines (each as read off the stream,
    /// terminator included).
    pub fn new(lines: Vec<String>) -> (r: Resp)
        ensures
            r.wf(),
            r.lines_view() == lines.deep_view(),
            r.spec_pos() == 0,
            r.raw_view() == Seq::<char>::empty(),
    {
        let r = Resp { lines, pos: 0, raw_data: String::new() };
        proof {
            assert(r.lines_view().take(0) =~= Seq::<Seq<char>>::empty());
            assert(Seq::<Seq<char>>::empty().flatten() =~= Seq::<char>::empty());
        }
        r
    }

    /// Consumes the next line and returns it trimmed; at the end of the
    /// input, returns an empty string and consumes nothing.
    pub fn read_line(&mut self) -> (r: String)
        requires
            old(self).wf(),
        ensures
            final(self).wf(),
            final(self).lines_view() == old(self).lines_view(),
            if old(self).spec_pos() < old(self).lines_view().len() {
                &&& r@ == trim_spec(old(self).lines_view()[old(self).spec_pos()])
                &&& final(self).spec_pos() == old(self).spec_pos() + 1
                &&& final(self).raw_view() == old(self).raw_view() + old(self).lines_view()[old(
                    self,
                ).spec_pos()]
            } else {
                &&& r@ == Seq::<char>::empty()
                &&& *final(self) == *old(self)
            },
    {
        if self.pos < self.lines.len() {
            let line = self.lines[self.pos].clone();
            self.raw_data.append(line.as_str());
            self.pos = self.pos + 1;
            proof {
                let lv = self.lines_view();
                let p0 = self.pos - 1;
                assert(line@ == lv[p0]);
                assert(lv.take(p0 + 1) =~= lv.take(p0).push(lv[p0]));
                lv.take(p0).lemma_flatten_push(lv[p0]);
                assert(self.raw_data@ == lv.take(self.pos as int).flatten());
            }
            trim_str(line.as_str())
        } else {
            String::new()
        }
    }

    /// Parses `line`, trimmed, as a signed 64-bit decimal integer. A
    /// malformed or out-of-range numeral is a transport failure, not a
    /// protocol Error value.
    pub fn read_integer(&mut self, line: &str) -> (r: Result<i64, DecodeError>)
        ensures
            *final(self) == *old(self),
            match r {
                Ok(n) => parse_i64_spec(trim_spec(line@)) == Some(n as int),
                Err(_) => parse_i64_spec(trim_spec(line@)) is None,
            },
    {
        let t = trim_str(line);
        match parse_i64(t.as_str()) {
            Some(n) => Ok(n),
            None => Err(DecodeError::InvalidInteger),
        }
    }

    /// Decodes one protocol value from the input, as `decode_at` reads it.
    pub fn read(&mut self) -> (r: Result<RespData, DecodeError>)
        requires
            old(self).wf(),
        ensures
            final(self).wf(),
            final(self).lines_view() == old(self).lines_view(),
            old(self).spec_pos() <= final(self).spec_pos() <= old(self).lines_view().len(),
            match r {
                Ok(v) => decode_at(old(self).lines_view(), old(self).spec_pos()) == Some(
                    (v@, final(self).spec_pos()),
                ),
                Err(_) => decode_at(old(self).lines_view(), old(self).spec_pos()) is None,
            },
        decreases self.lines_view().len() - self.spec_pos(),
    {
        let ghost lines0 = old(self).lines_view();
        let ghost pos0 = old(self).spec_pos();
        let line = self.read_line();
        let n = line.unicode_len();
        if n > 0 {
            let tag = line.as_str().get_char(0);
            if tag == '+' {
                let content = self.read_line();
                return Ok(RespData::SimpleString(content));
            }
            if tag == '$' {
                let content = self.read_line();
                return Ok(RespData::BulkString(content));
            }
            if tag == '*' {
                let rest = line.as_str().substring_char(1, n);
                proof {
                    assert(rest@ =~= trim_spec(lines0[pos0]).skip(1));
                }
                let num = match self.read_integer(rest) {
                    Ok(v) => v,
                    Err(e) => {
                        return Err(e);
                    },
                };
                if num < 0 {
                    return Err(DecodeError::InvalidInteger);
                }
                let ghost p1 = pos0 + 1;
                let mut items: Vec<RespData> = Vec::new();
                let mut i: i64 = 0;
                proof {
                    assert(items.deep_view() =~= Seq::<RespModel>::empty());
                    assert(Seq::<RespModel>::empty() + Seq::<RespModel>::empty()
                        =~= Seq::<RespModel>::empty());
                    assert(decode_at(lines0, pos0) == (match decode_list(lines0, p1, num as int) {
                        None => None,
                        Some((list_items, p2)) => Some((RespModel::Array(list_items), p2)),
                    }));
                }
                while i < num
                    invariant
                        0 <= i <= num,
                        self.wf(),
                        self.lines_view() == lines0,
                        lines0 == old(self).lines_view(),
                        pos0 == old(self).spec_pos(),
                        p1 == pos0 + 1,
                        pos0 + 1 <= self.spec_pos() <= lines0.len(),
                        items.deep_view().len() == i as int,
                        decode_at(lines0, pos0) == (match decode_list(lines0, p1, num as int) {
                            None => None,
                            Some((list_items, p2)) => Some((RespModel::Array(list_items), p2)),
                        }),
                        ({
                            let full = decode_list(lines0, p1, num as int);
                            match decode_list(lines0, self.spec_pos(), (num - i) as int) {
                                None => full is None,
                                Some((rest_items, p)) => full == Some(
                                    (items.deep_view() + rest_items, p),
                                ),
                            }
                        }),
                    decreases num - i,
                {
                    let ghost p_cur = self.spec_pos();
                    let item = match self.read() {
                        Ok(v) => v,
                        Err(e) => {
                            proof {
                                assert(decode_list(lines0, p_cur, (num - i) as int) is None);
                                assert(decode_at(lines0, pos0) is None);
                            }
                            return Err(e);
                        },
                    };
                    let ghost items_dv = items.deep_view();
                    proof {
                        let p_new = self.spec_pos();
                        assert(clamp_pos(p_cur, p_new, lines0.len() as int) == p_new);
                        match decode_list(lines0, p_new, (num - i - 1) as int) {
                            None => {},
                            Some((rest_items, p)) => {
                                assert(decode_list(lines0, p_cur, (num - i) as int) == Some(
                                    (seq![item@] + rest_items, p),
                                ));
                                assert(items_dv.push(item@) + rest_items =~= items_dv + (seq![
                                    item@,
                                ] + rest_items));
                            },
                        }
                    }
                    items.push(item);
                    proof {
                        assert(items.deep_view() =~= items_dv.push(item@));
                    }
                    i = i + 1;
                }
                proof {
                    assert(decode_list(lines0, self.spec_pos(), 0) == Some(
                        (Seq::<RespModel>::empty(), self.spec_pos()),
                    ));
                    assert(items.deep_view() + Seq::<RespModel>::empty() =~= items.deep_view());
                    let arr = RespData::Array(items);
                    match arr@ {
                        RespModel::Array(s) => {
                            assert(s =~= items.deep_view());
                        },
                        _ => {
                            assert(false);
                        },
                    }
                }
                return Ok(RespData::Array(items));
            }
            if tag == ':' {
                let rest = line.as_str().substring_char(1, n);
                proof {
                    assert(rest@ =~= trim_spec(lines0[pos0]).skip(1));
                }
                let num = match self.read_integer(rest) {
                    Ok(v) => v,
                    Err(e) => {
                        return Err(e);
                    },
                };
                return Ok(RespData::Integer(num));
            }
        }
        proof {
            reveal_strlit("Unknown error");
        }
        Ok(RespData::Error(String::from_str("Unknown error")))
    }
}

// ---------------------------------------------------------------------------
// Encoding then decoding gives the value back
// ---------------------------------------------------------------------------

/// The wire text of a value, line by line, each line with its CR LF.
pub open spec fn enc_lines(v: RespModel) -> Seq<Seq<char>>
    decreases v, 0int,
{
    match v {
        RespModel::SimpleString(s) => seq![seq!['+'] + s + crlf()],
        RespModel::Error(e) => seq![seq!['-', 'E', 'R', 'R', ' '] + e + crlf()],
        RespModel::Integer(n) => seq![seq![':'] + dec_int(n) + crlf()],
        RespModel::BulkString(s) => seq![
            seq!['$'] + dec_nat(encode_utf8(s).len() as int) + crlf(),
            s + crlf(),
        ],
        RespModel::Array(items) => seq![seq!['*'] + dec_nat(items.len() as int) + crlf()]
            + enc_lines_items(items, 0),
        RespModel::Null => seq![seq!['$', '-', '1'] + crlf()],
    }
}

/// The wire lines of the items of an array from index `i` on.
pub open spec fn enc_lines_items(items: Seq<RespModel>, i: int) -> Seq<Seq<char>>
    decreases items, items.len() - i,
{
    if i < 0 || i >= items.len() {
        Seq::empty()
    } else {
        enc_lines(items[i]) + enc_lines_items(items, i + 1)
    }
}

proof fn lemma_flatten_one(a: Seq<char>)
    ensures
        seq![a].flatten() == a,
{
    assert(seq![a].drop_first() =~= Seq::<Seq<char>>::empty());
    assert(Seq::<Seq<char>>::empty().flatten() =~= Seq::<char>::empty());
    assert(seq![a].flatten() =~= a);
}

proof fn lemma_flatten_two(a: Seq<char>, b: Seq<char>)
    ensures
        seq![a, b].flatten() == a + b,
{
    lemma_flatten_one(b);
    assert(seq![a, b].drop_first() =~= seq![b]);
    assert(seq![a, b].flatten() =~= a + b);
}

/// The encoding of a value is exactly its lines run together.
proof fn lemma_enc_lines_flatten(v: RespModel)
    ensures
        enc_lines(v).flatten() == encode_spec(v),
    decreases v, 0int,
{
    match v {
        RespModel::SimpleString(s) => {
            lemma_flatten_one(seq!['+'] + s + crlf());
        },
        RespModel::Error(e) => {
            lemma_flatten_one(seq!['-', 'E', 'R', 'R', ' '] + e + crlf());
        },
        RespModel::Integer(n) => {
            lemma_flatten_one(seq![':'] + dec_int(n) + crlf());
        },
        RespModel::BulkString(s) => {
            let l0 = seq!['$'] + dec_nat(encode_utf8(s).len() as int) + crlf();
            let l1 = s + crlf();
            lemma_flatten_two(l0, l1);
            assert(l0 + l1 =~= encode_spec(v));
        },
        RespModel::Array(items) => {
            let hdr = seq!['*'] + dec_nat(items.len() as int) + crlf();
            lemma_enc_lines_items_flatten(items, 0);
            lemma_flatten_concat(seq![hdr], enc_lines_items(items, 0));
            lemma_flatten_one(hdr);
            assert(enc_lines(v) == seq![hdr] + enc_lines_items(items, 0));
            assert(enc_lines(v).flatten() =~= hdr + encode_items(items, 0));
            assert(hdr + encode_items(items, 0) =~= encode_spec(v));
        },
        RespModel::Null => {
            lemma_flatten_one(seq!['$', '-', '1'] + crlf());
        },
    }
}

/// The item lines of an array run together are the items' encodings.
proof fn lemma_enc_lines_items_flatten(items: Seq<RespModel>, i: int)
    ensures
        enc_lines_items(items, i).flatten() == encode_items(items, i),
    decreases items, items.len() - i,
{
    if i < 0 || i >= items.len() {
        assert(enc_lines_items(items, i).flatten() =~= Seq::<char>::empty());
        assert(encode_items(items, i) =~= Seq::<char>::empty());
    } else {
        lemma_enc_lines_flatten(items[i]);
        lemma_enc_lines_items_flatten(items, i + 1);
        lemma_flatten_concat(enc_lines(items[i]), enc_lines_items(items, i + 1));
    }
}

/// The first index of a line feed in `s`, or -1 when it has none.
pub open spec fn find_nl(s: Seq<char>) -> int
    decreases s.len(),
{
    if s.len() == 0 {
        -1
    } else if s[0] == '\n' {
        0
    } else {
        let r = find_nl(s.drop_first());
        if r == -1 {
            -1
        } else {
            r + 1
        }
    }
}

/// `s` cut after each line feed, a trailing piece without one standing as
/// a line of its own: the lines a line-oriented reader would hand over.
pub open spec fn split_lines(s: Seq<char>) -> Seq<Seq<char>>
    decreases s.len(),
{
    if s.len() == 0 {
        Seq::empty()
    } else {
        let i = find_nl(s);
        if i < 0 || i >= s.len() {
            seq![s]
        } else {
            seq![s.take(i + 1)] + split_lines(s.skip(i + 1))
        }
    }
}

/// A proper line: some text free of line feeds, then one line feed.
pub open spec fn is_line(l: Seq<char>) -> bool {
    &&& l.len() > 0
    &&& l.last() == '\n'
    &&& forall|k: int| 0 <= k < l.len() - 1 ==> l[k] != '\n'
}

/// Every element is a proper line.
pub open spec fn all_lines(ls: Seq<Seq<char>>) -> bool {
    forall|i: int| 0 <= i < ls.len() ==> is_line(#[trigger] ls[i])
}

proof fn lemma_find_nl_at(s: Seq<char>, i: int)
    requires
        0 <= i < s.len(),
        s[i] == '\n',
        forall|k: int| 0 <= k < i ==> s[k] != '\n',
    ensures
        find_nl(s) == i,
    decreases i,
{
    if i > 0 {
        assert(forall|k: int|
            0 <= k < s.drop_first().len() ==> (#[trigger] s.drop_first()[k]) == s[k + 1]);
        lemma_find_nl_at(s.drop_first(), i - 1);
    }
}

/// Splitting recovers the proper lines that were run together.
proof fn lemma_split_flatten(ls: Seq<Seq<char>>)
    requires
        all_lines(ls),
    ensures
        split_lines(ls.flatten()) == ls,
    decreases ls.len(),
{
    if ls.len() == 0 {
        assert(ls.flatten() =~= Seq::<char>::empty());
        assert(split_lines(ls.flatten()) =~= ls);
    } else {
        let l0 = ls[0];
        let rest = ls.drop_first();
        let f = ls.flatten();
        assert(f == l0 + rest.flatten());
        assert(forall|i: int| 0 <= i < rest.len() ==> (#[trigger] rest[i]) == ls[i + 1]);
        lemma_split_flatten(rest);
        assert(is_line(l0));
        assert(l0.len() >= 1);
        assert(forall|k: int| 0 <= k < l0.len() - 1 ==> f[k] == l0[k]);
        assert(f[l0.len() - 1] == l0.last());
        lemma_find_nl_at(f, l0.len() - 1);
        assert(f.len() > 0);
        assert(f.take(l0.len() as int) =~= l0);
        assert(f.skip(l0.len() as int) =~= rest.flatten());
        if l0.len() - 1 < f.len() {
            assert(split_lines(f) == seq![f.take(l0.len() as int)] + split_lines(f.skip(l0.len() as int)));
        }
        assert(split_lines(f) =~= ls);
    }
}

/// The values whose wire text, split back into lines, decodes to the very
/// same value: in-range integers; bulk strings whose text is its own trim
/// and free of line feeds; arrays of such values; the error value the
/// decoder itself produces; and, at the very end of the input only, the
/// empty simple string. A simple string otherwise loses its text (the
/// decoder takes the following line as the content), Null reads back as a
/// bulk string, and an encoded error reads back as the decoder's own
/// error value.
pub open spec fn decodable(v: RespModel, at_end: bool) -> bool
    decreases v, 0int,
{
    match v {
        RespModel::SimpleString(s) => at_end && s.len() == 0,
        RespModel::Error(e) => e == "Unknown error"@,
        RespModel::Integer(n) => i64::MIN <= n <= i64::MAX,
        RespModel::BulkString(s) => trim_spec(s) == s && (forall|k: int|
            0 <= k < s.len() ==> s[k] != '\n'),
        RespModel::Array(items) => items.len() <= i64::MAX && decodable_items(items, 0, at_end),
        RespModel::Null => false,
    }
}

/// Every item from `i` on is decodable; only the very last may be the
/// empty simple string, and only when the array itself ends the input.
pub open spec fn decodable_items(items: Seq<RespModel>, i: int, at_end: bool) -> bool
    decreases items, items.len() - i,
{
    if i < 0 || i >= items.len() {
        true
    } else {
        decodable(items[i], at_end && i == items.len() - 1) && decodable_items(
            items,
            i + 1,
            at_end,
        )
    }
}

proof fn lemma_unknown_error_chars()
    ensures
        "Unknown error"@ =~= seq![
            'U', 'n', 'k', 'n', 'o', 'w', 'n', ' ', 'e', 'r', 'r', 'o', 'r',
        ],
{
    reveal_strlit("Unknown error");
}

/// Every line of a decodable value's encoding is a proper line.
proof fn lemma_enc_lines_shaped(v: RespModel, at_end: bool)
    requires
        decodable(v, at_end),
    ensures
        all_lines(enc_lines(v)),
    decreases v, 0int,
{
    match v {
        RespModel::SimpleString(s) => {
            let l0 = seq!['+'] + s + crlf();
            assert(l0 =~= seq!['+', '\r', '\n']);
            assert(is_line(l0));
        },
        RespModel::Error(e) => {
            let l0 = seq!['-', 'E', 'R', 'R', ' '] + e + crlf();
            lemma_unknown_error_chars();
            assert(l0 =~= seq![
                '-', 'E', 'R', 'R', ' ', 'U', 'n', 'k', 'n', 'o', 'w', 'n', ' ', 'e', 'r', 'r',
                'o', 'r', '\r', '\n',
            ]);
            assert(is_line(l0));
        },
        RespModel::Integer(n) => {
            let d = dec_int(n);
            let l0 = seq![':'] + d + crlf();
            lemma_dec_int_trim(n);
            assert forall|k: int| 0 <= k < l0.len() - 1 implies l0[k] != '\n' by {
                if k >= 1 && k < 1 + d.len() {
                    assert(l0[k] == d[k - 1]);
                }
            }
            assert(l0.last() == '\n');
            assert(is_line(l0));
        },
        RespModel::BulkString(s) => {
            let bl = encode_utf8(s).len() as int;
            let d = dec_nat(bl);
            let l0 = seq!['$'] + d + crlf();
            let l1 = s + crlf();
            lemma_dec_nat_digits(bl);
            assert forall|k: int| 0 <= k < l0.len() - 1 implies l0[k] != '\n' by {
                if k >= 1 && k < 1 + d.len() {
                    assert(l0[k] == d[k - 1]);
                    assert(is_digit(d[k - 1]));
                }
            }
            assert(l0.last() == '\n');
            assert(is_line(l0));
            assert forall|k: int| 0 <= k < l1.len() - 1 implies l1[k] != '\n' by {
                if k < s.len() {
                    assert(l1[k] == s[k]);
                }
            }
            assert(l1.last() == '\n');
            assert(is_line(l1));
            assert(all_lines(enc_lines(v)));
        },
        RespModel::Array(items) => {
            let d = dec_nat(items.len() as int);
            let l0 = seq!['*'] + d + crlf();
            lemma_dec_nat_digits(items.len() as int);
            assert forall|k: int| 0 <= k < l0.len() - 1 implies l0[k] != '\n' by {
                if k >= 1 && k < 1 + d.len() {
                    assert(l0[k] == d[k - 1]);
                    assert(is_digit(d[k - 1]));
                }
            }
            assert(l0.last() == '\n');
            assert(is_line(l0));
            lemma_enc_lines_items_shaped(items, 0, at_end);
            let tail = enc_lines_items(items, 0);
            assert forall|i: int| 0 <= i < enc_lines(v).len() implies is_line(
                #[trigger] enc_lines(v)[i],
            ) by {
                if i == 0 {
                    assert(enc_lines(v)[0] == l0);
                } else {
                    assert(enc_lines(v)[i] == tail[i - 1]);
                }
            }
        },
        RespModel::Null => {
            assert(false);
        },
    }
}

/// Every line of the items' encodings is a proper line.
proof fn lemma_enc_lines_items_shaped(items: Seq<RespModel>, i: int, at_end: bool)
    requires
        decodable_items(items, i, at_end),
    ensures
        all_lines(enc_lines_items(items, i)),
    decreases items, items.len() - i,
{
    if 0 <= i < items.len() {
        lemma_enc_lines_shaped(items[i], at_end && i == items.len() - 1);
        lemma_enc_lines_items_shaped(items, i + 1, at_end);
        let a = enc_lines(items[i]);
        let b = enc_lines_items(items, i + 1);
        assert forall|k: int| 0 <= k < enc_lines_items(items, i).len() implies is_line(
            #[trigger] enc_lines_items(items, i)[k],
        ) by {
            if k < a.len() {
                assert(enc_lines_items(items, i)[k] == a[k]);
            } else {
                assert(enc_lines_items(items, i)[k] == b[k - a.len()]);
            }
        }
    }
}

/// Decoding the encoded lines of a decodable value, laid at position
/// `pos` of the input (with nothing after them when `at_end`), yields the
/// value back and consumes exactly those lines.
pub proof fn lemma_decode_enc(lines: Seq<Seq<char>>, pos: int, v: RespModel, at_end: bool)
    requires
        decodable(v, at_end),
        0 <= pos,
        pos + enc_lines(v).len() <= lines.len(),
        lines.subrange(pos, pos + enc_lines(v).len() as int) == enc_lines(v),
        at_end ==> pos + enc_lines(v).len() == lines.len(),
    ensures
        decode_at(lines, pos) == Some((v, pos + enc_lines(v).len())),
    decreases v, 1int,
{
    match v {
        RespModel::SimpleString(_) => lemma_decode_enc_simple(lines, pos, v, at_end),
        RespModel::Error(_) => lemma_decode_enc_error(lines, pos, v, at_end),
        RespModel::Integer(_) => lemma_decode_enc_integer(lines, pos, v, at_end),
        RespModel::BulkString(_) => lemma_decode_enc_bulk(lines, pos, v, at_end),
        RespModel::Array(_) => lemma_decode_enc_array(lines, pos, v, at_end),
        RespModel::Null => assert(false),
    }
}

proof fn lemma_decode_enc_simple(lines: Seq<Seq<char>>, pos: int, v: RespModel, at_end: bool)
    requires
        decodable(v, at_end),
        0 <= pos,
        pos + enc_lines(v).len() <= lines.len(),
        lines.subrange(pos, pos + enc_lines(v).len() as int) == enc_lines(v),
        at_end ==> pos + enc_lines(v).len() == lines.len(),
        v is SimpleString,
    ensures
        decode_at(lines, pos) == Some((v, pos + enc_lines(v).len())),
{
    let el = enc_lines(v);
    assert(lines[pos] == el[0]);
    let s = v->SimpleString_0;
    let l0 = seq!['+'] + s + crlf();
    assert(s =~= Seq::<char>::empty());
    lemma_trim_id(seq!['+']);
    lemma_trim_content_line(seq!['+']);
    assert(seq!['+'] + seq!['\r', '\n'] =~= l0);
    assert(trim_spec(l0) == seq!['+']);
    assert(trim_spec(lines[pos]).len() == 1 && trim_spec(lines[pos])[0] == '+');
    assert(pos + 1 == lines.len());
    assert(content_at(lines, pos + 1) == (Seq::<char>::empty(), pos + 1));
    assert(decode_at(lines, pos) == Some(
        (RespModel::SimpleString(Seq::<char>::empty()), pos + 1),
    ));
}

proof fn lemma_decode_enc_error(lines: Seq<Seq<char>>, pos: int, v: RespModel, at_end: bool)
    requires
        decodable(v, at_end),
        0 <= pos,
        pos + enc_lines(v).len() <= lines.len(),
        lines.subrange(pos, pos + enc_lines(v).len() as int) == enc_lines(v),
        at_end ==> pos + enc_lines(v).len() == lines.len(),
        v is Error,
    ensures
        decode_at(lines, pos) == Some((v, pos + enc_lines(v).len())),
{
    let el = enc_lines(v);
    assert(lines[pos] == el[0]);
    let e = v->Error_0;
    let core = seq!['-', 'E', 'R', 'R', ' '] + e;
    let l0 = seq!['-', 'E', 'R', 'R', ' '] + e + crlf();
    lemma_unknown_error_chars();
    assert(core.len() == 18);
    assert(core[0] == '-' && !is_ws(core[0]));
    assert(core.last() == e.last());
    assert(e.last() == 'r');
    lemma_trim_id(core);
    lemma_trim_content_line(core);
    assert(core + seq!['\r', '\n'] =~= l0);
    assert(trim_spec(l0) == core);
    let l = trim_spec(lines[pos]);
    assert(l == core);
    assert(l[0] == '-');
    assert(l[0] != '+' && l[0] != '$' && l[0] != '*' && l[0] != ':');
    assert(unknown_model() == v);
    assert(decode_at(lines, pos) == Some((v, pos + 1)));
}

proof fn lemma_decode_enc_integer(lines: Seq<Seq<char>>, pos: int, v: RespModel, at_end: bool)
    requires
        decodable(v, at_end),
        0 <= pos,
        pos + enc_lines(v).len() <= lines.len(),
        lines.subrange(pos, pos + enc_lines(v).len() as int) == enc_lines(v),
        at_end ==> pos + enc_lines(v).len() == lines.len(),
        v is Integer,
    ensures
        decode_at(lines, pos) == Some((v, pos + enc_lines(v).len())),
{
    let el = enc_lines(v);
    assert(lines[pos] == el[0]);
    let n = v->Integer_0;
    let d = dec_int(n);
    let core = seq![':'] + d;
    let l0 = seq![':'] + d + crlf();
    lemma_dec_int_trim(n);
    assert(core[0] == ':' && !is_ws(core[0]));
    assert(core.last() == d.last());
    lemma_trim_id(core);
    lemma_trim_content_line(core);
    assert(core + seq!['\r', '\n'] =~= l0);
    assert(trim_spec(l0) == core);
    let l = trim_spec(lines[pos]);
    assert(l == core);
    assert(l[0] == ':');
    assert(l[0] != '+' && l[0] != '$' && l[0] != '*');
    assert(l.skip(1) =~= d);
    assert(trim_spec(d) == d);
    lemma_parse_dec_int(n);
    assert(parse_i64_spec(trim_spec(l.skip(1))) == Some(n));
    assert(decode_at(lines, pos) == Some((v, pos + 1)));
}

proof fn lemma_decode_enc_bulk(lines: Seq<Seq<char>>, pos: int, v: RespModel, at_end: bool)
    requires
        decodable(v, at_end),
        0 <= pos,
        pos + enc_lines(v).len() <= lines.len(),
        lines.subrange(pos, pos + enc_lines(v).len() as int) == enc_lines(v),
        at_end ==> pos + enc_lines(v).len() == lines.len(),
        v is BulkString,
    ensures
        decode_at(lines, pos) == Some((v, pos + enc_lines(v).len())),
{
    let el = enc_lines(v);
    assert(lines[pos] == el[0]);
    let s = v->BulkString_0;
    let bl = encode_utf8(s).len() as int;
    let d = dec_nat(bl);
    let core = seq!['$'] + d;
    let l0 = seq!['$'] + d + crlf();
    let l1 = s + crlf();
    lemma_dec_nat_digits(bl);
    assert(core[0] == '$' && !is_ws(core[0]));
    assert(core.last() == d.last());
    assert(is_digit(d.last()) && !is_ws(d.last()));
    lemma_trim_id(core);
    lemma_trim_content_line(core);
    assert(core + seq!['\r', '\n'] =~= l0);
    assert(trim_spec(l0) == core);
    let l = trim_spec(lines[pos]);
    assert(l == core);
    assert(l[0] == '$');
    assert(l[0] != '+');
    assert(lines[pos + 1] == el[1]);
    assert(el[1] == l1);
    lemma_trim_content_line(s);
    assert(s + seq!['\r', '\n'] =~= l1);
    assert(trim_spec(l1) == s);
    assert(pos + 1 < lines.len());
    assert(content_at(lines, pos + 1) == (s, pos + 2));
    assert(decode_at(lines, pos) == Some((v, pos + 2)));
}

proof fn lemma_decode_enc_array(lines: Seq<Seq<char>>, pos: int, v: RespModel, at_end: bool)
    requires
        decodable(v, at_end),
        0 <= pos,
        pos + enc_lines(v).len() <= lines.len(),
        lines.subrange(pos, pos + enc_lines(v).len() as int) == enc_lines(v),
        at_end ==> pos + enc_lines(v).len() == lines.len(),
        v is Array,
    ensures
        decode_at(lines, pos) == Some((v, pos + enc_lines(v).len())),
    decreases v, 0int,
{
    let el = enc_lines(v);
    assert(lines[pos] == el[0]);
    let items = v->Array_0;
    let n = items.len() as int;
    let d = dec_nat(n);
    let core = seq!['*'] + d;
    let l0 = seq!['*'] + d + crlf();
    lemma_dec_nat_digits(n);
    assert(core[0] == '*' && !is_ws(core[0]));
    assert(core.last() == d.last());
    assert(is_digit(d.last()) && !is_ws(d.last()));
    lemma_trim_id(core);
    lemma_trim_content_line(core);
    assert(core + seq!['\r', '\n'] =~= l0);
    assert(trim_spec(l0) == core);
    let l = trim_spec(lines[pos]);
    assert(l == core);
    assert(l[0] == '*');
    assert(l[0] != '+' && l[0] != '$');
    assert(l.skip(1) =~= d);
    assert(dec_int(n) == d);
    lemma_dec_int_trim(n);
    lemma_parse_dec_int(n);
    assert(parse_i64_spec(trim_spec(l.skip(1))) == Some(n));
    let tail = enc_lines_items(items, 0);
    assert(el == seq![l0] + tail);
    assert forall|k: int| 0 <= k < tail.len() implies lines.subrange(
        pos + 1,
        pos + 1 + tail.len() as int,
    )[k] == tail[k] by {
        assert(lines.subrange(pos, pos + el.len() as int)[1 + k] == el[1 + k]);
        assert(el[1 + k] == tail[k]);
    }
    assert(lines.subrange(pos + 1, pos + 1 + tail.len() as int) =~= tail);
    lemma_decode_enc_items(lines, pos + 1, items, 0, at_end);
    assert(items.skip(0) =~= items);
    assert(decode_list(lines, pos + 1, n) == Some((items, pos + 1 + tail.len())));
    assert(decode_at(lines, pos) == Some((v, pos + 1 + tail.len())));
    assert(el.len() == 1 + tail.len());
}

/// Decoding the encoded lines of the items from `i` on, laid at `pos`,
/// yields those items and consumes exactly their lines.
proof fn lemma_decode_enc_items(
    lines: Seq<Seq<char>>,
    pos: int,
    items: Seq<RespModel>,
    i: int,
    at_end: bool,
)
    requires
        decodable_items(items, i, at_end),
        0 <= i <= items.len(),
        0 <= pos,
        pos + enc_lines_items(items, i).len() <= lines.len(),
        lines.subrange(pos, pos + enc_lines_items(items, i).len() as int) == enc_lines_items(
            items,
            i,
        ),
        at_end ==> pos + enc_lines_items(items, i).len() == lines.len(),
    ensures
        decode_list(lines, pos, items.len() - i) == Some(
            (items.skip(i), pos + enc_lines_items(items, i).len()),
        ),
    decreases items, items.len() - i,
{
    if i == items.len() {
        assert(enc_lines_items(items, i) =~= Seq::<Seq<char>>::empty());
        assert(items.skip(i) =~= Seq::<RespModel>::empty());
        assert(decode_list(lines, pos, 0) == Some((Seq::<RespModel>::empty(), pos)));
    } else {
        let a = enc_lines(items[i]);
        let b = enc_lines_items(items, i + 1);
        assert(enc_lines_items(items, i) == a + b);
        assert(lines.subrange(pos, pos + a.len() as int) =~= a);
        assert((at_end && i == items.len() - 1) ==> b.len() == 0);
        lemma_decode_enc(lines, pos, items[i], at_end && i == items.len() - 1);
        let p2 = pos + a.len();
        let full = enc_lines_items(items, i);
        assert forall|k: int| 0 <= k < b.len() implies lines.subrange(
            p2,
            p2 + b.len() as int,
        )[k] == b[k] by {
            assert(lines.subrange(pos, pos + full.len() as int)[a.len() + k] == (a + b)[a.len()
                + k]);
            assert(lines[p2 + k] == b[k]);
        }
        assert(lines.subrange(p2, p2 + b.len() as int) =~= b);
        lemma_decode_enc_items(lines, p2, items, i + 1, at_end);
        let n = items.len() - i;
        assert(n > 0);
        assert(decode_at(lines, pos) == Some((items[i], p2)));
        assert(clamp_pos(pos, p2, lines.len() as int) == p2);
        assert(decode_list(lines, p2, n - 1) == Some((items.skip(i + 1), p2 + b.len())));
        assert(seq![items[i]] + items.skip(i + 1) =~= items.skip(i));
        assert(decode_list(lines, pos, n) == Some((items.skip(i), p2 + b.len())));
    }
}

/// Encode, then decode, gives the value back: the wire text of a
/// decodable value, split into lines as a line-oriented reader splits
/// them, decodes from the first line to the very same value, consuming
/// the whole input.
pub proof fn lemma_encode_decode_round_trip(v: RespModel)
    requires
        decodable(v, true),
    ensures
        ({
            let lines = split_lines(encode_spec(v));
            decode_at(lines, 0) == Some((v, lines.len() as int))
        }),
{
    lemma_enc_lines_flatten(v);
    lemma_enc_lines_shaped(v, true);
    lemma_split_flatten(enc_lines(v));
    assert(split_lines(encode_spec(v)) == enc_lines(v));
    let lines = enc_lines(v);
    assert(lines.subrange(0, lines.len() as int) =~= lines);
    lemma_decode_enc(lines, 0, v, true);
}

} // verus!
