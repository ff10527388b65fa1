use vstd::prelude::*;
use crate::date::rfc2822_timestamp;
use crate::workout::{DateError, Workout};

verus! {

// ----------------------------------------------------------------------
// The stored form: a JSON list of objects, each with a "date" string field
// and a "repeats" integer field, exactly as this program writes it. Quote
// and backslash are escaped in strings; the number is plain decimal.
// ----------------------------------------------------------------------

/// Relies on std's `String::push`: appends the given character to the end of
/// the string.
#[verifier::external_body]
fn push_char(s: &mut String, c: char)
    ensures
        final(s)@ == old(s)@.push(c),
{
    s.push(c);
}

/// One serialized character of a JSON string body: quote and backslash get a
/// backslash escape, every other character stands for itself.
pub open spec fn esc_char(c: char) -> Seq<char> {
    if c == '"' || c == '\\' {
        seq!['\\', c]
    } else {
        seq![c]
    }
}

/// The serialized body of a JSON string, without the surrounding quotes.
pub open spec fn esc_string(s: Seq<char>) -> Seq<char>
    decreases s.len(),
{
    if s.len() == 0 {
        Seq::empty()
    } else {
        esc_string(s.drop_last()) + esc_char(s.last())
    }
}

/// The decimal digit characters.
pub open spec fn digit_char(d: int) -> char {
    if d == 0 {
        '0'
    } else if d == 1 {
        '1'
    } else if d == 2 {
        '2'
    } else if d == 3 {
        '3'
    } else if d == 4 {
        '4'
    } else if d == 5 {
        '5'
    } else if d == 6 {
        '6'
    } else if d == 7 {
        '7'
    } else if d == 8 {
        '8'
    } else {
        '9'
    }
}

/// The decimal digits of `n`, most significant first, no leading zeros.
pub open spec fn dec_digits(n: int) -> Seq<char>
    decreases n,
{
    if n < 10 {
        seq![digit_char(n)]
    } else {
        dec_digits(n / 10).push(digit_char(n % 10))
    }
}

/// The opening of a serialized record, up to the date string's opening quote.
pub open spec fn lit_obj_open() -> Seq<char> {
    seq!['{', '"', 'd', 'a', 't', 'e', '"', ':', '"']
}

/// Between the date string's body and the repeat count: the closing quote of
/// the date and the "repeats" key.
pub open spec fn lit_obj_mid() -> Seq<char> {
    seq!['"', ',', '"', 'r', 'e', 'p', 'e', 'a', 't', 's', '"', ':']
}

/// `lit_obj_mid` without its leading quote; the parser sees the quote as the
/// end of the date string and expects these characters after it.
pub open spec fn lit_rep_key() -> Seq<char> {
    seq![',', '"', 'r', 'e', 'p', 'e', 'a', 't', 's', '"', ':']
}

/// One serialized record.
pub open spec fn ser_record(date: Seq<char>, repeats: u32) -> Seq<char> {
    lit_obj_open() + esc_string(date) + lit_obj_mid() + dec_digits(repeats as int) + seq!['}']
}

/// The serialized list after its first record: for each further record a
/// comma and the record, and the closing bracket.
pub open spec fn ser_tail(rs: Seq<(Seq<char>, u32)>) -> Seq<char>
    decreases rs.len(),
{
    if rs.len() == 0 {
        seq![']']
    } else {
        seq![','] + ser_record(rs[0].0, rs[0].1) + ser_tail(rs.subrange(1, rs.len() as int))
    }
}

/// The serialized record list.
pub open spec fn ser_records(rs: Seq<(Seq<char>, u32)>) -> Seq<char> {
    if rs.len() == 0 {
        seq!['[', ']']
    } else {
        seq!['['] + ser_record(rs[0].0, rs[0].1) + ser_tail(rs.subrange(1, rs.len() as int))
    }
}

/// The date text and repeat count of each record, in order: what the stored
/// form keeps of a record.
pub open spec fn rec_views(ws: Seq<Workout>) -> Seq<(Seq<char>, u32)> {
    ws.map(|i: int, w: Workout| (w.spec_date(), w.spec_repeats()))
}

// ----------------------------------------------------------------------
// The serializer.
// ----------------------------------------------------------------------

/// Appends the decimal digits of `n`.
fn append_u32(out: &mut String, n: u32)
    ensures
        final(out)@ == old(out)@ + dec_digits(n as int),
    decreases n,
{
    if n < 10 {
        let c: char = match n {
            0 => '0',
            1 => '1',
            2 => '2',
            3 => '3',
            4 => '4',
            5 => '5',
            6 => '6',
            7 => '7',
            8 => '8',
            _ => '9',
        };
        push_char(out, c);
        proof {
            assert(old(out)@.push(c) =~= old(out)@ + dec_digits(n as int));
        }
    } else {
        append_u32(out, n / 10);
        let d = n % 10;
        let c: char = match d {
            0 => '0',
            1 => '1',
            2 => '2',
            3 => '3',
            4 => '4',
            5 => '5',
            6 => '6',
            7 => '7',
            8 => '8',
            _ => '9',
        };
        push_char(out, c);
        proof {
            assert((old(out)@ + dec_digits(n as int / 10)).push(c) =~= old(out)@ + dec_digits(
                n as int,
            ));
        }
    }
}

/// Appends the escaped body of `s`.
fn append_escaped(out: &mut String, s: &str)
    ensures
        final(out)@ == old(out)@ + esc_string(s@),
{
    let slen = s.unicode_len();
    let mut i: usize = 0;
    proof {
        assert(old(out)@ + esc_string(s@.subrange(0, 0)) =~= old(out)@);
    }
    while i < slen
        invariant
            slen == s@.len(),
            i <= slen,
            out@ == old(out)@ + esc_string(s@.subrange(0, i as int)),
        decreases slen - i,
    {
        let c = s.get_char(i);
        let ghost pre = s@.subrange(0, i as int);
        let ghost post = s@.subrange(0, i as int + 1);
        proof {
            assert(post.drop_last() =~= pre);
            assert(post.last() == s@[i as int]);
        }
        if c == '"' || c == '\\' {
            push_char(out, '\\');
            push_char(out, c);
            proof {
                assert((old(out)@ + esc_string(pre)).push('\\').push(c) =~= old(out)@ + esc_string(
                    post,
                ));
            }
        } else {
            push_char(out, c);
            proof {
                assert((old(out)@ + esc_string(pre)).push(c) =~= old(out)@ + esc_string(post));
            }
        }
        i = i + 1;
    }
    proof {
        assert(s@.subrange(0, slen as int) =~= s@);
    }
}

/// Appends one serialized record.
fn append_record(out: &mut String, w: &Workout)
    ensures
        final(out)@ == old(out)@ + ser_record(w.spec_date(), w.spec_repeats()),
{
    out.append("{\"date\":\"");
    proof {
        reveal_strlit("{\"date\":\"");
        assert("{\"date\":\""@ =~= lit_obj_open());
    }
    append_escaped(out, w.get_date());
    out.append("\",\"repeats\":");
    proof {
        reveal_strlit("\",\"repeats\":");
        assert("\",\"repeats\":"@ =~= lit_obj_mid());
    }
    append_u32(out, w.get_repeats());
    push_char(out, '}');
    proof {
        assert(out@ =~= old(out)@ + ser_record(w.spec_date(), w.spec_repeats()));
    }
}

/// Appends the serialized list from record `i` on, and the closing bracket.
fn append_tail(out: &mut String, ws: &Vec<Workout>, i: usize)
    requires
        i <= ws@.len(),
    ensures
        final(out)@ == old(out)@ + ser_tail(rec_views(ws@).subrange(i as int, ws@.len() as int)),
    decreases ws@.len() - i,
{
    let ghost rv = rec_views(ws@);
    if i == ws.len() {
        push_char(out, ']');
        proof {
            assert(rv.subrange(i as int, ws@.len() as int) =~= Seq::<(Seq<char>, u32)>::empty());
            assert(old(out)@.push(']') =~= old(out)@ + seq![']']);
        }
    } else {
        push_char(out, ',');
        append_record(out, &ws[i]);
        append_tail(out, ws, i + 1);
        proof {
            let t = rv.subrange(i as int, ws@.len() as int);
            assert(t[0] == (ws@[i as int].spec_date(), ws@[i as int].spec_repeats()));
            assert(t.subrange(1, t.len() as int) =~= rv.subrange(i as int + 1, ws@.len() as int));
            assert(out@ =~= old(out)@ + ser_tail(t));
        }
    }
}

/// Serializes the full record list to its stored JSON form.
pub fn save_records(ws: &Vec<Workout>) -> (s: String)
    ensures
        s@ == ser_records(rec_views(ws@)),
{
    let mut out = String::new();
    let ghost rv = rec_views(ws@);
    if ws.len() == 0 {
        push_char(&mut out, '[');
        push_char(&mut out, ']');
        proof {
            assert(out@ =~= ser_records(rv));
        }
    } else {
        push_char(&mut out, '[');
        append_record(&mut out, &ws[0]);
        append_tail(&mut out, ws, 1);
        proof {
            assert(rv[0] == (ws@[0].spec_date(), ws@[0].spec_repeats()));
            assert(rv.subrange(1, rv.len() as int) =~= rec_views(ws@).subrange(
                1,
                ws@.len() as int,
            ));
            assert(out@ =~= ser_records(rv));
        }
    }
    out
}

// ----------------------------------------------------------------------
// The grammar of the stored form, as parsing functions over the text. Each
// returns what was read and the index just past it, or nothing when the text
// does not have the expected shape there.
// ----------------------------------------------------------------------

pub open spec fn is_digit(c: char) -> bool {
    48 <= c as u32 <= 57
}

pub open spec fn digit_val(c: char) -> int {
    c as u32 - 48
}

/// The index just past the run of digits starting at `i`.
pub open spec fn digit_end(s: Seq<char>, i: int) -> int
    decreases s.len() - i,
{
    if 0 <= i < s.len() && is_digit(s[i]) {
        digit_end(s, i + 1)
    } else {
        i
    }
}

/// The value of a run of digit characters, most significant first.
pub open spec fn digits_val(ds: Seq<char>) -> int
    decreases ds.len(),
{
    if ds.len() == 0 {
        0
    } else {
        digits_val(ds.drop_last()) * 10 + digit_val(ds.last())
    }
}

/// Reads a number: at least one digit, whose value must fit in 32 bits.
pub open spec fn parse_number(s: Seq<char>, i: int) -> Option<(u32, int)> {
    let e = digit_end(s, i);
    if e == i {
        None
    } else {
        let v = digits_val(s.subrange(i, e));
        if v <= 0xffff_ffff {
            Some((v as u32, e))
        } else {
            None
        }
    }
}

/// Reads a JSON string body up to and past its closing quote, undoing the
/// backslash escapes of quote and backslash.
pub open spec fn parse_string_body(s: Seq<char>, i: int) -> Option<(Seq<char>, int)>
    decreases s.len() - i,
{
    if i < 0 || i >= s.len() {
        None
    } else if s[i] == '"' {
        Some((Seq::empty(), i + 1))
    } else if s[i] == '\\' {
        if i + 1 < s.len() && (s[i + 1] == '"' || s[i + 1] == '\\') {
            match parse_string_body(s, i + 2) {
                Some(p) => Some((seq![s[i + 1]] + p.0, p.1)),
                None => None,
            }
        } else {
            None
        }
    } else {
        match parse_string_body(s, i + 1) {
            Some(p) => Some((seq![s[i]] + p.0, p.1)),
            None => None,
        }
    }
}

/// The characters of `lit` stand in `s` at `i`.
pub open spec fn match_lit(s: Seq<char>, i: int, lit: Seq<char>) -> bool {
    0 <= i && i + lit.len() <= s.len() && s.subrange(i, i + lit.len() as int) == lit
}

/// Reads one record: the object with its date string and repeat count.
pub open spec fn parse_record(s: Seq<char>, i: int) -> Option<((Seq<char>, u32), int)> {
    if match_lit(s, i, lit_obj_open()) {
        match parse_string_body(s, i + 9) {
            Some(p) => {
                let (date, j) = p;
                if match_lit(s, j, lit_rep_key()) {
                    match parse_number(s, j + 11) {
                        Some(q) => {
                            let (n, m) = q;
                            if 0 <= m < s.len() && s[m] == '}' {
                                Some(((date, n), m + 1))
                            } else {
                                None
                            }
                        },
                        None => None,
                    }
                } else {
                    None
                }
            },
            None => None,
        }
    } else {
        None
    }
}

/// Reads the list after its first record: either the closing bracket, or a
/// comma, a record and the rest.
pub open spec fn parse_tail(s: Seq<char>, i: int) -> Option<(Seq<(Seq<char>, u32)>, int)>
    decreases s.len() - i,
{
    if i < 0 || i >= s.len() {
        None
    } else if s[i] == ']' {
        Some((Seq::empty(), i + 1))
    } else if s[i] == ',' {
        match parse_record(s, i + 1) {
            Some(p) => {
                let (r, j) = p;
                if i + 1 < j <= s.len() {
                    match parse_tail(s, j) {
                        Some(q) => Some((seq![r] + q.0, q.1)),
                        None => None,
                    }
                } else {
                    None
                }
            },
            None => None,
        }
    } else {
        None
    }
}

/// Reads a full record list; the whole text must be consumed.
pub open spec fn parse_records(s: Seq<char>) -> Option<Seq<(Seq<char>, u32)>> {
    if s.len() == 2 && s[0] == '[' && s[1] == ']' {
        Some(Seq::empty())
    } else if s.len() >= 1 && s[0] == '[' {
        match parse_record(s, 1) {
            Some(p) => {
                let (r, j) = p;
                match parse_tail(s, j) {
                    Some(q) => {
                        if q.1 == s.len() {
                            Some(seq![r] + q.0)
                        } else {
                            None
                        }
                    },
                    None => None,
                }
            },
            None => None,
        }
    } else {
        None
    }
}

// ----------------------------------------------------------------------
// The parser.
// ----------------------------------------------------------------------

/// The date text and repeat count pairs, as the spec-level record list.
pub open spec fn raw_views(v: Seq<(String, u32)>) -> Seq<(Seq<char>, u32)> {
    v.map(|i: int, p: (String, u32)| (p.0@, p.1))
}

/// Whether the characters of `lit` stand in `s` at `i`.
fn expect_lit(s: &str, i: usize, slen: usize, lit: &str) -> (r: bool)
    requires
        slen == s@.len(),
        i <= slen,
    ensures
        r == match_lit(s@, i as int, lit@),
{
    let litlen = lit.unicode_len();
    if litlen > slen - i {
        return false;
    }
    let mut k: usize = 0;
    while k < litlen
        invariant
            slen == s@.len(),
            litlen == lit@.len(),
            i + litlen <= slen,
            k <= litlen,
            forall|m: int| 0 <= m < k ==> s@[i + m] == lit@[m],
        decreases litlen - k,
    {
        if s.get_char(i + k) != lit.get_char(k) {
            proof {
                assert(s@.subrange(i as int, i + lit@.len()) != lit@) by {
                    assert(s@.subrange(i as int, i + lit@.len())[k as int] != lit@[k as int]);
                }
            }
            return false;
        }
        k = k + 1;
    }
    proof {
        assert(s@.subrange(i as int, i + lit@.len()) =~= lit@);
    }
    true
}

/// Whether a digit stands at `e`.
fn digit_at(s: &str, e: usize, slen: usize) -> (r: bool)
    requires
        slen == s@.len(),
        e <= slen,
    ensures
        r == (e < slen && is_digit(s@[e as int])),
{
    if e < slen {
        let c = s.get_char(e);
        48 <= c as u32 && c as u32 <= 57
    } else {
        false
    }
}

/// Reads a number as `parse_number` describes.
fn parse_number_exec(s: &str, i: usize, slen: usize) -> (r: Option<(u32, usize)>)
    requires
        slen == s@.len(),
        i <= slen,
    ensures
        r matches Some(p) ==> {
            &&& parse_number(s@, i as int) == Some((p.0, p.1 as int))
            &&& i < p.1 <= slen
        },
        r is None ==> parse_number(s@, i as int) is None,
{
    let mut e: usize = i;
    while digit_at(s, e, slen)
        invariant
            slen == s@.len(),
            i <= e <= slen,
            forall|m: int| i <= m < e ==> is_digit(s@[m]),
            digit_end(s@, i as int) == digit_end(s@, e as int),
        decreases slen - e,
    {
        e = e + 1;
    }
    proof {
        assert(digit_end(s@, e as int) == e);
        assert(digit_end(s@, i as int) == e);
    }
    if e == i {
        return None;
    }
    let ghost ds = s@.subrange(i as int, e as int);
    let mut v: u64 = 0;
    let mut over: bool = false;
    let mut k: usize = i;
    proof {
        assert(s@.subrange(i as int, i as int) =~= Seq::<char>::empty());
    }
    while k < e
        invariant
            slen == s@.len(),
            i <= k <= e <= slen,
            forall|m: int| i <= m < e ==> is_digit(s@[m]),
            !over ==> v == digits_val(s@.subrange(i as int, k as int)) && v <= 0xffff_ffff,
            over ==> digits_val(s@.subrange(i as int, k as int)) > 0xffff_ffff,
        decreases e - k,
    {
        let c = s.get_char(k);
        let d = (c as u32 - 48) as u64;
        let ghost pre = s@.subrange(i as int, k as int);
        let ghost post = s@.subrange(i as int, k as int + 1);
        proof {
            assert(post.drop_last() =~= pre);
            assert(post.last() == s@[k as int]);
        }
        if !over {
            v = v * 10 + d;
            if v > 0xffff_ffff {
                over = true;
            }
        } else {
            proof {
                assert(digits_val(post) == digits_val(pre) * 10 + digit_val(s@[k as int]));
                assert(digits_val(pre) * 10 >= digits_val(pre)) by (nonlinear_arith)
                    requires
                        digits_val(pre) >= 0,
                ;
            }
        }
        k = k + 1;
    }
    if over {
        return None;
    }
    proof {
        assert(s@.subrange(i as int, e as int) == ds);
    }
    Some((v as u32, e))
}

/// Reads a JSON string body as `parse_string_body` describes.
fn parse_string_body_exec(s: &str, i: usize, slen: usize) -> (r: Option<(String, usize)>)
    requires
        slen == s@.len(),
        i <= slen,
    ensures
        r matches Some(p) ==> {
            &&& parse_string_body(s@, i as int) == Some((p.0@, p.1 as int))
            &&& i < p.1 <= slen
        },
        r is None ==> parse_string_body(s@, i as int) is None,
    decreases slen - i,
{
    if i >= slen {
        return None;
    }
    let c = s.get_char(i);
    if c == '"' {
        let out = String::new();
        proof {
            assert(out@ =~= Seq::<char>::empty());
        }
        Some((out, i + 1))
    } else if c == '\\' {
        if i + 1 < slen {
            let c2 = s.get_char(i + 1);
            if c2 == '"' || c2 == '\\' {
                match parse_string_body_exec(s, i + 2, slen) {
                    Some((d, j)) => {
                        let mut out = String::new();
                        push_char(&mut out, c2);
                        out.append(d.as_str());
                        proof {
                            assert(out@ =~= seq![s@[i as int + 1]] + d@);
                        }
                        Some((out, j))
                    },
                    None => None,
                }
            } else {
                None
            }
        } else {
            None
        }
    } else {
        match parse_string_body_exec(s, i + 1, slen) {
            Some((d, j)) => {
                let mut out = String::new();
                push_char(&mut out, c);
                out.append(d.as_str());
                proof {
                    assert(out@ =~= seq![s@[i as int]] + d@);
                }
                Some((out, j))
            },
            None => None,
        }
    }
}

/// Reads one record as `parse_record` describes.
fn parse_record_exec(s: &str, i: usize, slen: usize) -> (r: Option<((String, u32), usize)>)
    requires
        slen == s@.len(),
        i <= slen,
    ensures
        r matches Some(p) ==> {
            &&& parse_record(s@, i as int) == Some(((p.0.0@, p.0.1), p.1 as int))
            &&& i < p.1 <= slen
        },
        r is None ==> parse_record(s@, i as int) is None,
{
    proof {
        reveal_strlit("{\"date\":\"");
        assert("{\"date\":\""@ =~= lit_obj_open());
        reveal_strlit(",\"repeats\":");
        assert(",\"repeats\":"@ =~= lit_rep_key());
    }
    if !expect_lit(s, i, slen, "{\"date\":\"") {
        return None;
    }
    match parse_string_body_exec(s, i + 9, slen) {
        Some((date, j)) => {
            if !expect_lit(s, j, slen, ",\"repeats\":") {
                return None;
            }
            match parse_number_exec(s, j + 11, slen) {
                Some((n, m)) => {
                    if m < slen && s.get_char(m) == '}' {
                        Some(((date, n), m + 1))
                    } else {
                        None
                    }
                },
                None => None,
            }
        },
        None => None,
    }
}

/// Reads the list after its first record as `parse_tail` describes.
fn parse_tail_exec(s: &str, i: usize, slen: usize) -> (r: Option<(Vec<(String, u32)>, usize)>)
    requires
        slen == s@.len(),
        i <= slen,
    ensures
        r matches Some(p) ==> parse_tail(s@, i as int) == Some((raw_views(p.0@), p.1 as int)),
        r is None ==> parse_tail(s@, i as int) is None,
    decreases slen - i,
{
    if i >= slen {
        return None;
    }
    let c = s.get_char(i);
    if c == ']' {
        let v: Vec<(String, u32)> = Vec::new();
        proof {
            assert(raw_views(v@) =~= Seq::<(Seq<char>, u32)>::empty());
        }
        Some((v, i + 1))
    } else if c == ',' {
        match parse_record_exec(s, i + 1, slen) {
            Some((rec, j)) => {
                match parse_tail_exec(s, j, slen) {
                    Some((mut v, k)) => {
                        let ghost vold = v@;
                        v.insert(0, rec);
                        proof {
                            assert(raw_views(v@) =~= seq![(rec.0@, rec.1)] + raw_views(vold));
                        }
                        Some((v, k))
                    },
                    None => None,
                }
            },
            None => None,
        }
    } else {
        None
    }
}

/// Reads a full record list as `parse_records` describes: the list of date
/// texts and repeat counts, or nothing when the text is not a stored record
/// list.
pub fn parse_records_exec(s: &str) -> (r: Option<Vec<(String, u32)>>)
    ensures
        r matches Some(v) ==> parse_records(s@) == Some(raw_views(v@)),
        r is None ==> parse_records(s@) is None,
{
    let slen = s.unicode_len();
    if slen == 2 && s.get_char(0) == '[' && s.get_char(1) == ']' {
        let v: Vec<(String, u32)> = Vec::new();
        proof {
            assert(raw_views(v@) =~= Seq::<(Seq<char>, u32)>::empty());
        }
        return Some(v);
    }
    if slen < 1 || s.get_char(0) != '[' {
        return None;
    }
    match parse_record_exec(s, 1, slen) {
        Some((rec, j)) => {
            match parse_tail_exec(s, j, slen) {
                Some((mut v, k)) => {
                    if k == slen {
                        let ghost vold = v@;
                        v.insert(0, rec);
                        proof {
                            assert(raw_views(v@) =~= seq![(rec.0@, rec.1)] + raw_views(vold));
                        }
                        Some(v)
                    } else {
                        None
                    }
                },
                None => None,
            }
        },
        None => None,
    }
}

// ----------------------------------------------------------------------
// Loading.
// ----------------------------------------------------------------------

/// Why loading stored records failed.
#[derive(Debug)]
pub enum LoadError {
    /// The stored text is not a valid record list.
    Parse,
    /// A stored date is not a valid RFC 2822 timestamp; carries the text.
    Date(DateError),
}

/// What the stored text holds before dates are checked: the record list,
/// with the empty text standing for the empty list.
pub open spec fn spec_loaded(text: Seq<char>) -> Option<Seq<(Seq<char>, u32)>> {
    if text.len() == 0 {
        Some(Seq::empty())
    } else {
        parse_records(text)
    }
}

/// Every date text of the list parses as an RFC 2822 date.
pub open spec fn all_dates_ok(rs: Seq<(Seq<char>, u32)>) -> bool {
    forall|i: int| 0 <= i < rs.len() ==> rfc2822_timestamp((#[trigger] rs[i]).0) is Some
}

/// Some record of the list has `d` as its date text.
pub open spec fn has_date(rs: Seq<(Seq<char>, u32)>, d: Seq<char>) -> bool {
    exists|i: int| 0 <= i < rs.len() && (#[trigger] rs[i]).0 == d
}

/// Reads the stored text back into records. A missing file is handed in as
/// the empty text and yields the empty list; text that is not a valid record
/// list fails with `Parse`; a record whose date does not parse fails with
/// `Date` and the offending text.
#[verifier::rlimit(60)]
pub fn load_records(text: &str) -> (r: Result<Vec<Workout>, LoadError>)
    ensures
        r is Ok <==> (spec_loaded(text@) matches Some(rs) && all_dates_ok(rs)),
        r matches Ok(ws) ==> {
            &&& Some(rec_views(ws@)) == spec_loaded(text@)
            &&& forall|i: int| 0 <= i < ws@.len() ==> (#[trigger] ws@[i]).date_consistent()
        },
        (r matches Err(e) && e is Parse) <==> spec_loaded(text@) is None,
        r matches Err(e) ==> (e matches LoadError::Date(de) ==> {
            &&& spec_loaded(text@) is Some
            &&& rfc2822_timestamp(de.date@) is None
            &&& has_date(spec_loaded(text@).unwrap(), de.date@)
        }),
{
    if text.unicode_len() == 0 {
        let ws: Vec<Workout> = Vec::new();
        proof {
            assert(rec_views(ws@) =~= Seq::<(Seq<char>, u32)>::empty());
        }
        return Ok(ws);
    }
    match parse_records_exec(text) {
        None => Err(LoadError::Parse),
        Some(raw) => {
            let ghost rv = raw_views(raw@);
            let ghost n = raw@.len() as int;
            let mut rem = raw;
            let mut ws: Vec<Workout> = Vec::new();
            proof {
                assert(rv.subrange(0, n) =~= rv);
                assert(rec_views(ws@) =~= rv.subrange(0, 0));
            }
            while rem.len() > 0
                invariant
                    rv.len() == n,
                    spec_loaded(text@) == Some(rv),
                    rem@.len() <= n,
                    raw_views(rem@) == rv.subrange(n - rem@.len(), n),
                    rec_views(ws@) == rv.subrange(0, n - rem@.len()),
                    forall|i: int| 0 <= i < ws@.len() ==> (#[trigger] ws@[i]).date_consistent(),
                decreases rem@.len(),
            {
                let ghost k = n - rem@.len();
                let ghost rem0 = rem@;
                let (date, reps) = rem.remove(0);
                proof {
                    assert(raw_views(rem0)[0] == (rem0[0].0@, rem0[0].1));
                    assert((date@, reps) == rv.subrange(k, n)[0]);
                    assert forall|m: int|
                        0 <= m < rem@.len() implies #[trigger] raw_views(rem@)[m] == rv.subrange(
                        k + 1,
                        n,
                    )[m] by {
                        assert(raw_views(rem@)[m] == (rem@[m].0@, rem@[m].1));
                        assert(rem@[m] == rem0[m + 1]);
                        assert(raw_views(rem0)[m + 1] == (rem0[m + 1].0@, rem0[m + 1].1));
                        assert(raw_views(rem0)[m + 1] == rv.subrange(k, n)[m + 1]);
                        assert(rv.subrange(k, n)[m + 1] == rv[k + 1 + m]);
                        assert(rv.subrange(k + 1, n)[m] == rv[k + 1 + m]);
                    }
                    assert(raw_views(rem@) =~= rv.subrange(k + 1, n));
                }
                match Workout::new(date, reps) {
                    Ok(w) => {
                        let ghost ws0 = ws@;
                        ws.push(w);
                        proof {
                            assert(rec_views(ws0).len() == ws0.len());
                            assert(ws0.len() == k);
                            assert(ws@ == ws0.push(w));
                            assert forall|m: int|
                                0 <= m < ws@.len() implies #[trigger] rec_views(ws@)[m]
                                == rv.subrange(0, k + 1)[m] by {
                                assert(rec_views(ws@)[m] == (ws@[m].spec_date(),
                                ws@[m].spec_repeats()));
                                if m < k {
                                    assert(ws@[m] == ws0[m]);
                                    assert(rec_views(ws0)[m] == (ws0[m].spec_date(),
                                    ws0[m].spec_repeats()));
                                    assert(rec_views(ws0)[m] == rv.subrange(0, k)[m]);
                                    assert(rv.subrange(0, k)[m] == rv[m]);
                                    assert(rv.subrange(0, k + 1)[m] == rv[m]);
                                } else {
                                    assert(ws@[m] == w);
                                    assert((w.spec_date(), w.spec_repeats()) == (date@, reps));
                                    assert(rv.subrange(k, n)[0] == rv[k]);
                                    assert(rv.subrange(0, k + 1)[m] == rv[k]);
                                }
                            }
                            assert(rec_views(ws@) =~= rv.subrange(0, k + 1));
                        }
                    },
                    Err(e) => {
                        proof {
                            assert(rv.subrange(k, n)[0] == rv[k]);
                            assert(0 <= k < rv.len() && rv[k].0 == e.date@);
                            assert(rfc2822_timestamp(rv[k].0) is None);
                            assert(!all_dates_ok(rv));
                            assert(has_date(rv, e.date@));
                            assert(spec_loaded(text@).unwrap() == rv);
                        }
                        return Err(LoadError::Date(e));
                    },
                }
            }
            proof {
                assert(rec_views(ws@) == rv);
                assert forall|i: int| 0 <= i < rv.len() implies rfc2822_timestamp(
                    (#[trigger] rv[i]).0,
                ) is Some by {
                    assert(rv[i] == rec_views(ws@)[i]);
                    assert(rv[i].0 == ws@[i].spec_date());
                    assert(ws@[i].date_consistent());
                }
            }
            Ok(ws)
        },
    }
}

// ----------------------------------------------------------------------
// Round trip: parsing a serialized record list gives the list back.
// ----------------------------------------------------------------------

/// A window of a window of `s` is the shifted window of `s`.
proof fn lemma_sub_sub(s: Seq<char>, i: int, n: int, a: int, b: int)
    requires
        0 <= i,
        i + n <= s.len(),
        0 <= a <= b <= n,
    ensures
        s.subrange(i + a, i + b) == s.subrange(i, i + n).subrange(a, b),
{
    assert(s.subrange(i + a, i + b) =~= s.subrange(i, i + n).subrange(a, b));
}

/// Escaping distributes over concatenation.
proof fn lemma_esc_concat(a: Seq<char>, b: Seq<char>)
    ensures
        esc_string(a + b) == esc_string(a) + esc_string(b),
    decreases b.len(),
{
    if b.len() == 0 {
        assert(a + b =~= a);
        assert(esc_string(b) =~= Seq::<char>::empty());
        assert(esc_string(a) + esc_string(b) =~= esc_string(a));
    } else {
        lemma_esc_concat(a, b.drop_last());
        assert((a + b).drop_last() =~= a + b.drop_last());
        assert((a + b).last() == b.last());
        assert(esc_string(a) + (esc_string(b.drop_last()) + esc_char(b.last())) =~= (esc_string(a)
            + esc_string(b.drop_last())) + esc_char(b.last()));
    }
}

/// Parsing a string body over the escaped text, up to the closing quote,
/// gives the original text back.
proof fn lemma_parse_esc(s: Seq<char>, i: int, d: Seq<char>)
    requires
        0 <= i,
        i + esc_string(d).len() + 1 <= s.len(),
        s.subrange(i, i + esc_string(d).len() as int) == esc_string(d),
        s[i + esc_string(d).len() as int] == '"',
    ensures
        parse_string_body(s, i) == Some((d, i + esc_string(d).len() + 1)),
    decreases d.len(),
{
    if d.len() == 0 {
        assert(s[i] == '"');
        assert(parse_string_body(s, i) == Some((Seq::<char>::empty(), i + 1)));
        assert(Seq::<char>::empty() =~= d);
    } else {
        let d0 = d[0];
        let rest = d.subrange(1, d.len() as int);
        assert(d =~= seq![d0] + rest);
        lemma_esc_concat(seq![d0], rest);
        assert(seq![d0].drop_last() =~= Seq::<char>::empty());
        assert(seq![d0].last() == d0);
        assert(esc_string(Seq::<char>::empty()) =~= Seq::<char>::empty());
        assert(esc_string(seq![d0]) =~= esc_char(d0));
        assert(esc_string(d) == esc_char(d0) + esc_string(rest));
        let k = esc_char(d0).len() as int;
        let n = esc_string(d).len() as int;
        assert(n == k + esc_string(rest).len());
        lemma_sub_sub(s, i, n, k, n);
        assert(esc_string(d).subrange(k, n) =~= esc_string(rest));
        assert(s.subrange(i + k, i + n) == esc_string(rest));
        assert(s[(i + k) + esc_string(rest).len() as int] == '"');
        lemma_parse_esc(s, i + k, rest);
        assert(s[i] == s.subrange(i, i + n)[0]);
        if d0 == '"' || d0 == '\\' {
            assert(esc_char(d0) == seq!['\\', d0]);
            assert(esc_string(d)[0] == '\\');
            assert(s[i] == '\\');
            assert(s[i + 1] == s.subrange(i, i + n)[1]);
            assert(esc_string(d)[1] == d0);
            assert(s[i + 1] == d0);
            assert(parse_string_body(s, i) == Some((seq![s[i + 1]] + rest, i + n + 1)));
            assert(seq![s[i + 1]] + rest =~= d);
        } else {
            assert(esc_char(d0) == seq![d0]);
            assert(esc_string(d)[0] == d0);
            assert(s[i] == d0);
            assert(parse_string_body(s, i) == Some((seq![s[i]] + rest, i + n + 1)));
            assert(seq![s[i]] + rest =~= d);
        }
    }
}

/// The decimal digits of a number are at least one character, all digits, and
/// their value reads back as the number.
proof fn lemma_dec_digits_props(n: int)
    requires
        n >= 0,
    ensures
        dec_digits(n).len() >= 1,
        forall|j: int| 0 <= j < dec_digits(n).len() ==> is_digit(#[trigger] dec_digits(n)[j]),
        digits_val(dec_digits(n)) == n,
    decreases n,
{
    if n < 10 {
        let ds = dec_digits(n);
        assert(ds == seq![digit_char(n)]);
        assert(is_digit(digit_char(n)));
        assert(ds.drop_last() =~= Seq::<char>::empty());
        assert(digits_val(Seq::<char>::empty()) == 0);
        assert(digits_val(ds) == digit_val(digit_char(n)));
        assert(digit_val(digit_char(n)) == n);
    } else {
        lemma_dec_digits_props(n / 10);
        let ds = dec_digits(n);
        assert(ds == dec_digits(n / 10).push(digit_char(n % 10)));
        assert(ds.drop_last() =~= dec_digits(n / 10));
        assert(ds.last() == digit_char(n % 10));
        assert(digit_val(digit_char(n % 10)) == n % 10);
        assert(digits_val(ds) == (n / 10) * 10 + n % 10);
        vstd::arithmetic::div_mod::lemma_fundamental_div_mod(n, 10);
        assert forall|j: int| 0 <= j < ds.len() implies is_digit(#[trigger] ds[j]) by {
            if j < ds.len() - 1 {
                assert(ds[j] == dec_digits(n / 10)[j]);
            } else {
                assert(ds[j] == digit_char(n % 10));
            }
        }
    }
}

/// Where a digit run ends.
proof fn lemma_digit_end_run(s: Seq<char>, i: int, e: int)
    requires
        0 <= i <= e <= s.len(),
        forall|k: int| i <= k < e ==> is_digit(#[trigger] s[k]),
        e == s.len() || !is_digit(s[e]),
    ensures
        digit_end(s, i) == e,
    decreases e - i,
{
    if i < e {
        lemma_digit_end_run(s, i + 1, e);
    }
}

/// Parsing a number over serialized digits, with no digit following, gives
/// the number back.
proof fn lemma_parse_dec(s: Seq<char>, i: int, n: u32)
    requires
        0 <= i,
        i + dec_digits(n as int).len() <= s.len(),
        s.subrange(i, i + dec_digits(n as int).len() as int) == dec_digits(n as int),
        i + dec_digits(n as int).len() == s.len() || !is_digit(
            s[i + dec_digits(n as int).len() as int],
        ),
    ensures
        parse_number(s, i) == Some((n, i + dec_digits(n as int).len())),
{
    lemma_dec_digits_props(n as int);
    let ds = dec_digits(n as int);
    let e = i + ds.len() as int;
    assert forall|k: int| i <= k < e implies is_digit(#[trigger] s[k]) by {
        assert(s[k] == s.subrange(i, e)[k - i]);
        assert(is_digit(ds[k - i]));
    }
    lemma_digit_end_run(s, i, e);
    assert(digits_val(s.subrange(i, e)) == n);
}

/// Parsing a serialized record gives the record back.
proof fn lemma_parse_ser_record(s: Seq<char>, i: int, date: Seq<char>, n: u32)
    requires
        0 <= i,
        i + ser_record(date, n).len() <= s.len(),
        s.subrange(i, i + ser_record(date, n).len() as int) == ser_record(date, n),
    ensures
        parse_record(s, i) == Some(((date, n), i + ser_record(date, n).len())),
{
    let e = esc_string(date);
    let el = e.len() as int;
    let dd = dec_digits(n as int);
    let dl = dd.len() as int;
    let r = ser_record(date, n);
    let rl = r.len() as int;
    lemma_dec_digits_props(n as int);
    assert(rl == 9 + el + 12 + dl + 1);
    // the object opening
    lemma_sub_sub(s, i, rl, 0, 9);
    assert(r.subrange(0, 9) =~= lit_obj_open());
    assert(match_lit(s, i, lit_obj_open()));
    // the escaped date string and its closing quote
    let o1 = i + 9;
    let o2 = o1 + el;
    lemma_sub_sub(s, i, rl, 9, 9 + el);
    assert(r.subrange(9, 9 + el) =~= e);
    assert(s.subrange(o1, o2) == e);
    lemma_sub_sub(s, i, rl, 9 + el, 9 + el + 12);
    assert(r.subrange(9 + el, 9 + el + 12) =~= lit_obj_mid());
    assert(s.subrange(o2, o2 + 12) == lit_obj_mid());
    assert(s[o2] == s.subrange(o2, o2 + 12)[0]);
    assert(s[o2] == '"');
    lemma_parse_esc(s, o1, date);
    let j = o2 + 1;
    // the repeats key
    assert forall|m: int| 0 <= m < 11 implies s.subrange(j, j + 11)[m] == lit_rep_key()[m] by {
        assert(s.subrange(j, j + 11)[m] == s[j + m]);
        assert(s[j + m] == s.subrange(o2, o2 + 12)[m + 1]);
        assert(lit_obj_mid()[m + 1] == lit_rep_key()[m]);
    }
    assert(s.subrange(j, j + 11) =~= lit_rep_key());
    assert(match_lit(s, j, lit_rep_key()));
    // the digits and the closing brace
    let o3 = j + 11;
    let o4 = o3 + dl;
    lemma_sub_sub(s, i, rl, 9 + el + 12, 9 + el + 12 + dl);
    assert(r.subrange(9 + el + 12, 9 + el + 12 + dl) =~= dd);
    assert(s.subrange(o3, o4) == dd);
    assert(s[o4] == s.subrange(i, i + rl)[rl - 1]);
    assert(r[rl - 1] == '}');
    assert(s[o4] == '}');
    assert(!is_digit('}'));
    lemma_parse_dec(s, o3, n);
    assert(parse_record(s, i) == Some(((date, n), o4 + 1)));
    assert(o4 + 1 == i + rl);
}

/// Parsing the serialized tail of a list gives the remaining records back.
proof fn lemma_parse_ser_tail(s: Seq<char>, i: int, rs: Seq<(Seq<char>, u32)>)
    requires
        0 <= i <= s.len(),
        i + ser_tail(rs).len() == s.len(),
        s.subrange(i, s.len() as int) == ser_tail(rs),
    ensures
        parse_tail(s, i) == Some((rs, s.len() as int)),
    decreases rs.len(),
{
    let t = ser_tail(rs);
    let tl = t.len() as int;
    if rs.len() == 0 {
        assert(s[i] == s.subrange(i, s.len() as int)[0]);
        assert(t[0] == ']');
        assert(s[i] == ']');
        assert(i + 1 == s.len());
        assert(parse_tail(s, i) == Some((Seq::<(Seq<char>, u32)>::empty(), i + 1)));
        assert(Seq::<(Seq<char>, u32)>::empty() =~= rs);
    } else {
        let rest = rs.subrange(1, rs.len() as int);
        let r = ser_record(rs[0].0, rs[0].1);
        let rl = r.len() as int;
        lemma_dec_digits_props(rs[0].1 as int);
        assert(rl >= 23);
        assert(t == seq![','] + r + ser_tail(rest));
        assert(s[i] == s.subrange(i, s.len() as int)[0]);
        assert(t[0] == ',');
        assert(s[i] == ',');
        assert(s[i] != ']');
        lemma_sub_sub(s, i, tl, 1, 1 + rl);
        assert(t.subrange(1, 1 + rl) =~= r);
        assert(s.subrange(i + 1, i + 1 + rl) == r);
        lemma_parse_ser_record(s, i + 1, rs[0].0, rs[0].1);
        let j = i + 1 + rl;
        lemma_sub_sub(s, i, tl, 1 + rl, tl);
        assert(t.subrange(1 + rl, tl) =~= ser_tail(rest));
        assert(s.subrange(j, s.len() as int) == ser_tail(rest));
        lemma_parse_ser_tail(s, j, rest);
        assert((rs[0].0, rs[0].1) == rs[0]);
        assert(seq![rs[0]] + rest =~= rs);
    }
}

/// Round trip of the stored form: parsing a serialized record list gives
/// exactly the list that was serialized.
#[verifier::rlimit(60)]
pub proof fn lemma_round_trip(rs: Seq<(Seq<char>, u32)>)
    ensures
        parse_records(ser_records(rs)) == Some(rs),
{
    let s = ser_records(rs);
    if rs.len() == 0 {
        assert(s == seq!['[', ']']);
        assert(s.len() == 2 && s[0] == '[' && s[1] == ']');
        assert(parse_records(s) == Some(Seq::<(Seq<char>, u32)>::empty()));
        assert(Seq::<(Seq<char>, u32)>::empty() =~= rs);
    } else {
        let rest = rs.subrange(1, rs.len() as int);
        let r = ser_record(rs[0].0, rs[0].1);
        let rl = r.len() as int;
        lemma_dec_digits_props(rs[0].1 as int);
        assert(rl >= 23);
        let t = ser_tail(rest);
        let tl = t.len() as int;
        assert(s == seq!['['] + r + t);
        assert(tl >= 1);
        assert(s.len() == 1 + rl + tl);
        assert(s[0] == '[');
        assert(s.len() != 2);
        lemma_sub_sub(s, 0, 1 + rl + tl, 1, 1 + rl);
        assert(s.subrange(0, s.len() as int) =~= s);
        assert(s.subrange(1, 1 + rl) =~= r);
        lemma_parse_ser_record(s, 1, rs[0].0, rs[0].1);
        let j = 1 + rl;
        lemma_sub_sub(s, 0, 1 + rl + tl, 1 + rl, 1 + rl + tl);
        assert(s.subrange(j, s.len() as int) =~= t);
        lemma_parse_ser_tail(s, j, rest);
        assert((rs[0].0, rs[0].1) == rs[0]);
        assert(seq![rs[0]] + rest =~= rs);
    }
}

/// Saving and loading back: the text that `save_records` writes reads back to
/// exactly the saved records' dates and repeat counts, and every such date
/// parses again.
pub proof fn lemma_save_load(ws: Seq<Workout>)
    requires
        forall|i: int| 0 <= i < ws.len() ==> (#[trigger] ws[i]).date_consistent(),
    ensures
        spec_loaded(ser_records(rec_views(ws))) == Some(rec_views(ws)),
        all_dates_ok(rec_views(ws)),
{
    let rv = rec_views(ws);
    lemma_round_trip(rv);
    if rv.len() == 0 {
        assert(ser_records(rv).len() == 2);
    } else {
        assert(ser_records(rv).len() >= 1);
    }
    assert forall|i: int| 0 <= i < rv.len() implies rfc2822_timestamp(
        (#[trigger] rv[i]).0,
    ) is Some by {
        assert(rv[i].0 == ws[i].spec_date());
        assert(ws[i].date_consistent());
    }
}

} // verus!
