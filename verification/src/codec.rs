//! A binary snapshot codec for the aggregate: length-prefixed fields in a
//! fixed order, integers little-endian, text as UTF-8 bytes. Encoding and
//! decoding are exact inverses: decoding the encoding of an aggregate gives
//! the aggregate back, and decoding rejects bytes that no aggregate encodes
//! to.

use vstd::prelude::*;

use crate::bytes::{
    enc_le, has_enc, lemma_enc_le_len, lemma_has_enc_split, lemma_pow256_values, pow256, read_le,
    write_le,
};
use crate::date::{date_wf, valid_date, Date};
use crate::day::{day_index, lemma_day_index_injective, Day};
use crate::errors::DecodeError;
use crate::application::{Application, ApplicationV};
use crate::course::{Course, CourseV};
use crate::task::{Task, TaskV};
use crate::time::{time_wf, valid_time, Time};
use vstd::string::StrSliceExecFns;
use vstd::utf8::{encode_utf8, encode_utf8_decode_utf8, encode_utf8_valid_utf8, valid_utf8};

verus! {

broadcast use lemma_enc_le_len;

/// A boolean as one byte: 0 for false, 1 for true.
pub open spec fn enc_bool(v: bool) -> Seq<u8> {
    seq![if v { 1u8 } else { 0u8 }]
}

fn write_bool(out: &mut Vec<u8>, v: bool)
    ensures
        final(out)@ == old(out)@ + enc_bool(v),
{
    out.push(if v { 1 } else { 0 });
    proof {
        assert(final(out)@ =~= old(out)@ + enc_bool(v));
    }
}

/// Read one byte as a boolean: succeeds exactly on a byte some boolean
/// encodes to, and returns that boolean.
fn read_bool(b: &Vec<u8>, pos: usize) -> (r: Result<(bool, usize), DecodeError>)
    requires
        pos <= b@.len(),
    ensures
        r matches Ok((v, end)) ==> end == pos + 1 && end <= b@.len() && has_enc(
            b@,
            pos as int,
            enc_bool(v),
        ),
        forall|m: bool|
            has_enc(b@, pos as int, enc_bool(m)) ==> (r matches Ok((v, end)) && v == m && end
                == pos + 1),
{
    proof {
        assert forall|m: bool| has_enc(b@, pos as int, enc_bool(m)) implies b@[pos as int] == (
        if m {
            1u8
        } else {
            0u8
        }) by {
            assert(b@.subrange(pos as int, pos as int + 1)[0] == b@[pos as int]);
        }
    }
    if pos >= b.len() {
        return Err(DecodeError);
    }
    let byte = b[pos];
    proof {
        assert(b@.subrange(pos as int, (pos + 1) as int) =~= seq![b@[pos as int]]);
    }
    if byte == 0 {
        Ok((false, pos + 1))
    } else if byte == 1 {
        Ok((true, pos + 1))
    } else {
        Err(DecodeError)
    }
}

/// A date as four bytes: the year as two little-endian bytes, then the
/// month and the day as one byte each.
pub open spec fn enc_date(d: Date) -> Seq<u8> {
    enc_le(d@.0, 2) + enc_le(d@.1, 1) + enc_le(d@.2, 1)
}

fn write_date(out: &mut Vec<u8>, d: &Date)
    ensures
        final(out)@ == old(out)@ + enc_date(*d),
{
    proof {
        lemma_pow256_values();
    }
    let (y, mo, da) = d.parts();
    write_le(out, y as u64, 2);
    write_le(out, mo as u64, 1);
    write_le(out, da as u64, 1);
    proof {
        assert(final(out)@ =~= old(out)@ + enc_date(*d));
    }
}

/// Read a date: succeeds exactly on four bytes that a real calendar day
/// encodes to, and returns that day.
fn read_date(b: &Vec<u8>, pos: usize) -> (r: Result<(Date, usize), DecodeError>)
    requires
        pos <= b@.len(),
    ensures
        r matches Ok((d, end)) ==> end == pos + 4 && end <= b@.len() && has_enc(
            b@,
            pos as int,
            enc_date(d),
        ) && date_wf(d),
        forall|m: Date|
            date_wf(m) && has_enc(b@, pos as int, #[trigger] enc_date(m)) ==> (r matches Ok(
                (d, end),
            ) && d == m && end == pos + 4),
{
    proof {
        lemma_pow256_values();
        assert forall|m: Date| date_wf(m) && has_enc(
            b@,
            pos as int,
            #[trigger] enc_date(m),
        ) implies {
            &&& has_enc(b@, pos as int, enc_le(m@.0, 2))
            &&& has_enc(b@, pos as int + 2, enc_le(m@.1, 1))
            &&& has_enc(b@, pos as int + 3, enc_le(m@.2, 1))
        } by {
            lemma_has_enc_split(b@, pos as int, enc_le(m@.0, 2) + enc_le(m@.1, 1), enc_le(m@.2, 1));
            lemma_has_enc_split(b@, pos as int, enc_le(m@.0, 2), enc_le(m@.1, 1));
            assert(enc_date(m) == (enc_le(m@.0, 2) + enc_le(m@.1, 1)) + enc_le(m@.2, 1));
        }
    }
    let (y, p1) = match read_le(b, pos, 2) {
        Ok(v) => v,
        Err(e) => {
            return Err(e);
        },
    };
    let (mo, p2) = match read_le(b, p1, 1) {
        Ok(v) => v,
        Err(e) => {
            return Err(e);
        },
    };
    let (da, p3) = match read_le(b, p2, 1) {
        Ok(v) => v,
        Err(e) => {
            return Err(e);
        },
    };
    match Date::new(y as u16, mo as u8, da as u8) {
        Ok(d) => {
            proof {
                assert(enc_date(d) == (enc_le(d@.0, 2) + enc_le(d@.1, 1)) + enc_le(d@.2, 1));
                lemma_has_enc_split(
                    b@,
                    pos as int,
                    enc_le(d@.0, 2) + enc_le(d@.1, 1),
                    enc_le(d@.2, 1),
                );
                lemma_has_enc_split(b@, pos as int, enc_le(d@.0, 2), enc_le(d@.1, 1));
                assert forall|m: Date|
                    date_wf(m) && has_enc(b@, pos as int, #[trigger] enc_date(m)) implies d
                    == m by {
                    crate::date::lemma_date_view_injective(d, m);
                }
            }
            Ok((d, p3))
        },
        Err(_) => {
            proof {
                assert forall|m: Date|
                    !(date_wf(m) && has_enc(b@, pos as int, #[trigger] enc_date(m))) by {
                    if date_wf(m) && has_enc(b@, pos as int, enc_date(m)) {
                        assert(m@.0 == y as int && m@.1 == mo as int && m@.2 == da as int);
                        assert(valid_date(y as int, mo as int, da as int));
                    }
                }
            }
            Err(DecodeError)
        },
    }
}

/// A time as two bytes: hour, then minute.
pub open spec fn enc_time(t: Time) -> Seq<u8> {
    enc_le(t@.0, 1) + enc_le(t@.1, 1)
}

fn write_time(out: &mut Vec<u8>, t: &Time)
    ensures
        final(out)@ == old(out)@ + enc_time(*t),
{
    proof {
        lemma_pow256_values();
    }
    let (h, mi) = t.parts();
    write_le(out, h as u64, 1);
    write_le(out, mi as u64, 1);
    proof {
        assert(final(out)@ =~= old(out)@ + enc_time(*t));
    }
}

/// Read a time: succeeds exactly on two bytes that a real time of day
/// encodes to, and returns that time.
fn read_time(b: &Vec<u8>, pos: usize) -> (r: Result<(Time, usize), DecodeError>)
    requires
        pos <= b@.len(),
    ensures
        r matches Ok((t, end)) ==> end == pos + 2 && end <= b@.len() && has_enc(
            b@,
            pos as int,
            enc_time(t),
        ) && time_wf(t),
        forall|m: Time|
            time_wf(m) && has_enc(b@, pos as int, #[trigger] enc_time(m)) ==> (r matches Ok(
                (t, end),
            ) && t == m && end == pos + 2),
{
    proof {
        lemma_pow256_values();
        assert forall|m: Time| time_wf(m) && has_enc(
            b@,
            pos as int,
            #[trigger] enc_time(m),
        ) implies {
            &&& has_enc(b@, pos as int, enc_le(m@.0, 1))
            &&& has_enc(b@, pos as int + 1, enc_le(m@.1, 1))
        } by {
            lemma_has_enc_split(b@, pos as int, enc_le(m@.0, 1), enc_le(m@.1, 1));
        }
    }
    let (h, p1) = match read_le(b, pos, 1) {
        Ok(v) => v,
        Err(e) => {
            return Err(e);
        },
    };
    let (mi, p2) = match read_le(b, p1, 1) {
        Ok(v) => v,
        Err(e) => {
            return Err(e);
        },
    };
    match Time::new(h as u8, mi as u8) {
        Ok(t) => {
            proof {
                lemma_has_enc_split(b@, pos as int, enc_le(t@.0, 1), enc_le(t@.1, 1));
                assert forall|m: Time|
                    time_wf(m) && has_enc(b@, pos as int, #[trigger] enc_time(m)) implies t
                    == m by {
                    crate::time::lemma_time_view_injective(t, m);
                }
            }
            Ok((t, p2))
        },
        Err(_) => {
            proof {
                assert forall|m: Time|
                    !(time_wf(m) && has_enc(b@, pos as int, #[trigger] enc_time(m))) by {
                    if time_wf(m) && has_enc(b@, pos as int, enc_time(m)) {
                        assert(m@.0 == h as int && m@.1 == mi as int);
                        assert(valid_time(h as int, mi as int));
                    }
                }
            }
            Err(DecodeError)
        },
    }
}

/// A day of the week as one byte: its index, counting from Sunday as 0.
pub open spec fn enc_day(d: Day) -> Seq<u8> {
    enc_le(day_index(d), 1)
}

fn write_day(out: &mut Vec<u8>, d: Day)
    ensures
        final(out)@ == old(out)@ + enc_day(d),
{
    proof {
        lemma_pow256_values();
    }
    write_le(out, d.index() as u64, 1);
}

/// Read a day of the week: succeeds exactly on a byte some day encodes to,
/// and returns that day.
fn read_day(b: &Vec<u8>, pos: usize) -> (r: Result<(Day, usize), DecodeError>)
    requires
        pos <= b@.len(),
    ensures
        r matches Ok((d, end)) ==> end == pos + 1 && end <= b@.len() && has_enc(
            b@,
            pos as int,
            enc_day(d),
        ),
        forall|m: Day|
            has_enc(b@, pos as int, #[trigger] enc_day(m)) ==> (r matches Ok((d, end)) && d == m
                && end == pos + 1),
{
    proof {
        lemma_pow256_values();
    }
    let (k, p1) = match read_le(b, pos, 1) {
        Ok(v) => v,
        Err(e) => {
            return Err(e);
        },
    };
    if k <= 6 {
        let d = Day::from_index(k as u8);
        proof {
            assert forall|m: Day|
                has_enc(b@, pos as int, #[trigger] enc_day(m)) implies d == m by {
                lemma_day_index_injective(d, m);
            }
        }
        Ok((d, p1))
    } else {
        proof {
            assert forall|m: Day| !has_enc(b@, pos as int, #[trigger] enc_day(m)) by {
                if has_enc(b@, pos as int, enc_day(m)) {
                    assert(day_index(m) == k as int);
                }
            }
        }
        Err(DecodeError)
    }
}

/// The text's UTF-8 encoding fits a byte buffer of this machine.
pub open spec fn str_wf(s: Seq<char>) -> bool {
    encode_utf8(s).len() <= usize::MAX as int
}

/// Text as its UTF-8 byte length (eight little-endian bytes) followed by
/// its UTF-8 bytes.
pub open spec fn enc_str(s: Seq<char>) -> Seq<u8> {
    enc_le(encode_utf8(s).len() as int, 8) + encode_utf8(s)
}

/// Relies on `String::from_utf8`: it accepts exactly the valid UTF-8 byte
/// strings, and returns the string whose UTF-8 encoding is the input.
#[verifier::external_body]
fn bytes_to_string(v: Vec<u8>) -> (r: Option<String>)
    ensures
        r is Some <==> valid_utf8(v@),
        r matches Some(s) ==> encode_utf8(s@) == v@,
{
    String::from_utf8(v).ok()
}

fn write_str(out: &mut Vec<u8>, s: &String)
    ensures
        final(out)@ == old(out)@ + enc_str(s@),
{
    proof {
        lemma_pow256_values();
    }
    let mut bytes = s.as_str().as_bytes_vec();
    let n = bytes.len();
    write_le(out, n as u64, 8);
    out.append(&mut bytes);
    proof {
        assert(final(out)@ =~= old(out)@ + enc_str(s@));
    }
}

/// Read a text: succeeds exactly on a length prefix and that many bytes of
/// valid UTF-8, and returns the one text that encodes to them.
fn read_str(b: &Vec<u8>, pos: usize) -> (r: Result<(String, usize), DecodeError>)
    requires
        pos <= b@.len(),
    ensures
        r matches Ok((s, end)) ==> pos <= end <= b@.len() && has_enc(b@, pos as int, enc_str(s@))
            && end == pos + enc_str(s@).len() && str_wf(s@),
        forall|m: Seq<char>|
            str_wf(m) && has_enc(b@, pos as int, #[trigger] enc_str(m)) ==> (r matches Ok(
                (s, end),
            ) && s@ == m && end == pos + enc_str(m).len()),
{
    proof {
        lemma_pow256_values();
        assert forall|m: Seq<char>|
            str_wf(m) && has_enc(b@, pos as int, #[trigger] enc_str(m)) implies {
            &&& has_enc(b@, pos as int, enc_le(encode_utf8(m).len() as int, 8))
            &&& has_enc(b@, pos as int + 8, encode_utf8(m))
        } by {
            lemma_has_enc_split(
                b@,
                pos as int,
                enc_le(encode_utf8(m).len() as int, 8),
                encode_utf8(m),
            );
        }
    }
    let (count, p1) = match read_le(b, pos, 8) {
        Ok(v) => v,
        Err(e) => {
            return Err(e);
        },
    };
    if count > usize::MAX as u64 {
        return Err(DecodeError);
    }
    let l = count as usize;
    let blen = b.len();
    if l > blen - p1 {
        return Err(DecodeError);
    }
    let mut buf: Vec<u8> = Vec::new();
    let mut i: usize = 0;
    while i < l
        invariant
            p1 + l <= blen,
            blen == b@.len(),
            i <= l,
            buf@ =~= b@.subrange(p1 as int, (p1 + i) as int),
        decreases l - i,
    {
        buf.push(b[p1 + i]);
        proof {
            assert(buf@ =~= b@.subrange(p1 as int, (p1 + i + 1) as int));
        }
        i += 1;
    }
    let ghost raw = b@.subrange(p1 as int, (p1 + l) as int);
    match bytes_to_string(buf) {
        Some(s) => {
            proof {
                assert(encode_utf8(s@) == raw);
                assert(b@.subrange(pos as int, p1 as int) == enc_le(count as int, 8));
                lemma_has_enc_split(b@, pos as int, enc_le(count as int, 8), encode_utf8(s@));
                assert(has_enc(b@, pos as int, enc_str(s@)));
                assert forall|m: Seq<char>|
                    str_wf(m) && has_enc(b@, pos as int, #[trigger] enc_str(m)) implies s@
                    == m by {
                    assert(encode_utf8(m).len() == count as int);
                    assert(b@.subrange(pos as int + 8, pos as int + 8 + count as int)
                        == encode_utf8(m));
                    encode_utf8_decode_utf8(m);
                    encode_utf8_decode_utf8(s@);
                }
            }
            Ok((s, p1 + l))
        },
        None => {
            proof {
                assert forall|m: Seq<char>|
                    !(str_wf(m) && has_enc(b@, pos as int, #[trigger] enc_str(m))) by {
                    if str_wf(m) && has_enc(b@, pos as int, enc_str(m)) {
                        assert(encode_utf8(m).len() == count as int);
                        assert(raw == encode_utf8(m));
                        encode_utf8_valid_utf8(m);
                    }
                }
            }
            Err(DecodeError)
        },
    }
}

/// The item encodings of a list, in order.
pub open spec fn enc_items<A>(s: Seq<A>, f: spec_fn(A) -> Seq<u8>) -> Seq<u8>
    decreases s.len(),
{
    if s.len() == 0 {
        Seq::empty()
    } else {
        f(s[0]) + enc_items(s.drop_first(), f)
    }
}

/// A list as its length (eight little-endian bytes) followed by its item
/// encodings.
pub open spec fn enc_list<A>(s: Seq<A>, f: spec_fn(A) -> Seq<u8>) -> Seq<u8> {
    enc_le(s.len() as int, 8) + enc_items(s, f)
}

/// Appending an item appends its encoding.
pub proof fn lemma_enc_items_push<A>(s: Seq<A>, f: spec_fn(A) -> Seq<u8>, x: A)
    ensures
        enc_items(s.push(x), f) == enc_items(s, f) + f(x),
    decreases s.len(),
{
    if s.len() == 0 {
        assert(s.push(x).drop_first() =~= s);
        assert(s.push(x)[0] == x);
        assert(enc_items(s.push(x), f) =~= enc_items(s, f) + f(x));
    } else {
        assert(s.push(x).drop_first() =~= s.drop_first().push(x));
        assert(s.push(x)[0] == s[0]);
        lemma_enc_items_push(s.drop_first(), f, x);
        assert(enc_items(s.push(x), f) =~= enc_items(s, f) + f(x));
    }
}

/// A checklist step as its completed flag, then its label.
pub open spec fn enc_step(p: (bool, Seq<char>)) -> Seq<u8> {
    enc_bool(p.0) + enc_str(p.1)
}

/// The step encoder, as a named function value for list encodings.
pub open spec fn enc_step_fn() -> spec_fn((bool, Seq<char>)) -> Seq<u8> {
    |p: (bool, Seq<char>)| enc_step(p)
}

/// A step list as a length-prefixed list of step encodings.
pub open spec fn enc_steps(s: Seq<(bool, Seq<char>)>) -> Seq<u8> {
    enc_list(s, enc_step_fn())
}

/// The model of an executable step list.
pub open spec fn steps_model(s: Seq<(bool, String)>) -> Seq<(bool, Seq<char>)> {
    s.map_values(|p: (bool, String)| (p.0, p.1@))
}

/// The step list fits this machine: its length and its labels' UTF-8
/// encodings fit `usize`.
pub open spec fn steps_wf(s: Seq<(bool, Seq<char>)>) -> bool {
    &&& s.len() <= usize::MAX as int
    &&& forall|i: int| 0 <= i < s.len() ==> str_wf((#[trigger] s[i]).1)
}

fn write_steps(out: &mut Vec<u8>, steps: &Vec<(bool, String)>)
    ensures
        final(out)@ == old(out)@ + enc_steps(steps_model(steps@)),
{
    proof {
        lemma_pow256_values();
    }
    let n = steps.len();
    write_le(out, n as u64, 8);
    let mut i: usize = 0;
    while i < n
        invariant
            n == steps@.len(),
            i <= n,
            out@ == old(out)@ + enc_le(n as int, 8) + enc_items(
                steps_model(steps@).take(i as int),
                enc_step_fn(),
            ),
        decreases n - i,
    {
        let p = &steps[i];
        write_bool(out, p.0);
        write_str(out, &p.1);
        proof {
            let ghost mdl = steps_model(steps@);
            lemma_enc_items_push(mdl.take(i as int), enc_step_fn(), mdl[i as int]);
            assert(mdl.take(i as int).push(mdl[i as int]) =~= mdl.take(i as int + 1));
            assert(out@ =~= old(out)@ + enc_le(n as int, 8) + enc_items(
                mdl.take(i as int + 1),
                enc_step_fn(),
            ));
        }
        i += 1;
    }
    proof {
        assert(steps_model(steps@).take(n as int) =~= steps_model(steps@));
        assert(final(out)@ =~= old(out)@ + enc_steps(steps_model(steps@)));
    }
}

/// Read a step list: succeeds exactly on a length prefix and that many
/// step encodings, and returns the one list that encodes to them.
fn read_steps(b: &Vec<u8>, pos: usize) -> (r: Result<(Vec<(bool, String)>, usize), DecodeError>)
    requires
        pos <= b@.len(),
    ensures
        r matches Ok((v, end)) ==> pos <= end <= b@.len() && has_enc(
            b@,
            pos as int,
            enc_steps(steps_model(v@)),
        ) && end == pos + enc_steps(steps_model(v@)).len() && steps_wf(steps_model(v@)),
        forall|m: Seq<(bool, Seq<char>)>|
            steps_wf(m) && has_enc(b@, pos as int, #[trigger] enc_steps(m)) ==> (r matches Ok(
                (v, end),
            ) && steps_model(v@) == m && end == pos + enc_steps(m).len()),
{
    proof {
        lemma_pow256_values();
        assert forall|m: Seq<(bool, Seq<char>)>|
            steps_wf(m) && has_enc(b@, pos as int, #[trigger] enc_steps(m)) implies {
            &&& has_enc(b@, pos as int, enc_le(m.len() as int, 8))
            &&& has_enc(b@, pos as int + 8, enc_items(m, enc_step_fn()))
            &&& m.len() < pow256(8)
        } by {
            lemma_has_enc_split(b@, pos as int, enc_le(m.len() as int, 8), enc_items(
                m,
                enc_step_fn(),
            ));
        }
    }
    let (count, p1) = match read_le(b, pos, 8) {
        Ok(v) => v,
        Err(e) => {
            return Err(e);
        },
    };
    if count > usize::MAX as u64 {
        return Err(DecodeError);
    }
    let n = count as usize;
    let mut acc: Vec<(bool, String)> = Vec::new();
    let mut cur: usize = p1;
    let mut i: usize = 0;
    proof {
        assert(b@.subrange(p1 as int, p1 as int) =~= enc_items(
            steps_model(acc@),
            enc_step_fn(),
        ));
        assert forall|m: Seq<(bool, Seq<char>)>|
            steps_wf(m) && has_enc(b@, pos as int, #[trigger] enc_steps(m)) implies m.len()
            == n as int && steps_model(acc@) == m.take(0) && has_enc(
            b@,
            p1 as int,
            enc_items(m.skip(0), enc_step_fn()),
        ) by {
            assert(steps_model(acc@) =~= m.take(0));
            assert(m.skip(0) =~= m);
        }
    }
    while i < n
        invariant
            i <= n,
            pos + 8 == p1,
            p1 <= cur <= b@.len(),
            acc@.len() == i as int,
            steps_wf(steps_model(acc@)),
            b@.subrange(p1 as int, cur as int) == enc_items(steps_model(acc@), enc_step_fn()),
            cur as int == p1 + enc_items(steps_model(acc@), enc_step_fn()).len(),
            forall|m: Seq<(bool, Seq<char>)>|
                steps_wf(m) && has_enc(b@, pos as int, #[trigger] enc_steps(m)) ==> m.len()
                    == n as int && steps_model(acc@) == m.take(i as int) && has_enc(
                    b@,
                    cur as int,
                    enc_items(m.skip(i as int), enc_step_fn()),
                ),
        decreases n - i,
    {
        proof {
            assert forall|m: Seq<(bool, Seq<char>)>|
                steps_wf(m) && has_enc(b@, pos as int, #[trigger] enc_steps(m)) implies {
                &&& has_enc(b@, cur as int, enc_step(m[i as int]))
                &&& has_enc(b@, cur as int, enc_bool(m[i as int].0))
                &&& has_enc(b@, cur as int + 1, enc_str(m[i as int].1))
                &&& str_wf(m[i as int].1)
            } by {
                let rest = m.skip(i as int);
                assert(rest.drop_first() =~= m.skip(i as int + 1));
                assert(rest[0] == m[i as int]);
                assert(enc_items(rest, enc_step_fn()) == enc_step(m[i as int]) + enc_items(
                    m.skip(i as int + 1),
                    enc_step_fn(),
                ));
                lemma_has_enc_split(b@, cur as int, enc_step(m[i as int]), enc_items(
                    m.skip(i as int + 1),
                    enc_step_fn(),
                ));
                lemma_has_enc_split(b@, cur as int, enc_bool(m[i as int].0), enc_str(
                    m[i as int].1,
                ));
            }
        }
        let (flag, c1) = match read_bool(b, cur) {
            Ok(v) => v,
            Err(e) => {
                return Err(e);
            },
        };
        let (text, c2) = match read_str(b, c1) {
            Ok(v) => v,
            Err(e) => {
                return Err(e);
            },
        };
        let ghost oldacc = acc@;
        acc.push((flag, text));
        proof {
            let x = (flag, text@);
            assert(steps_model(acc@) =~= steps_model(oldacc).push(x));
            lemma_enc_items_push(steps_model(oldacc), enc_step_fn(), x);
            lemma_has_enc_split(b@, cur as int, enc_bool(flag), enc_str(text@));
            assert(b@.subrange(cur as int, c2 as int) =~= enc_bool(flag) + enc_str(text@));
            assert(b@.subrange(p1 as int, c2 as int) =~= b@.subrange(p1 as int, cur as int)
                + b@.subrange(cur as int, c2 as int));
            assert(b@.subrange(p1 as int, c2 as int) == enc_items(
                steps_model(acc@),
                enc_step_fn(),
            ));
            assert forall|m: Seq<(bool, Seq<char>)>|
                steps_wf(m) && has_enc(b@, pos as int, #[trigger] enc_steps(m)) implies
                steps_model(acc@) == m.take(i as int + 1) && has_enc(
                b@,
                c2 as int,
                enc_items(m.skip(i as int + 1), enc_step_fn()),
            ) by {
                assert(m[i as int].0 == flag && m[i as int].1 == text@);
                assert(steps_model(oldacc).push(x) =~= m.take(i as int + 1));
                let rest = m.skip(i as int);
                assert(rest.drop_first() =~= m.skip(i as int + 1));
                assert(rest[0] == m[i as int]);
                assert(enc_items(rest, enc_step_fn()) == enc_step(m[i as int]) + enc_items(
                    m.skip(i as int + 1),
                    enc_step_fn(),
                ));
                lemma_has_enc_split(b@, cur as int, enc_step(m[i as int]), enc_items(
                    m.skip(i as int + 1),
                    enc_step_fn(),
                ));
                assert(enc_step(m[i as int]).len() == 1 + enc_str(text@).len());
            }
        }
        cur = c2;
        i += 1;
    }
    proof {
        assert(b@.subrange(pos as int, p1 as int) == enc_le(count as int, 8));
        assert(steps_model(acc@).len() == n as int);
        lemma_has_enc_split(b@, pos as int, enc_le(n as int, 8), enc_items(
            steps_model(acc@),
            enc_step_fn(),
        ));
        assert(has_enc(b@, pos as int, enc_steps(steps_model(acc@))));
        assert forall|m: Seq<(bool, Seq<char>)>|
            steps_wf(m) && has_enc(b@, pos as int, #[trigger] enc_steps(m)) implies steps_model(
            acc@,
        ) == m && cur == pos + enc_steps(m).len() by {
            assert(m.take(n as int) =~= m);
        }
    }
    Ok((acc, cur))
}

/// A task as its name, description, due date, and step list.
pub open spec fn enc_task(t: TaskV) -> Seq<u8> {
    enc_str(t.name) + enc_str(t.desc) + enc_date(t.due) + enc_steps(t.steps)
}

/// The task's texts, date and steps fit this machine and the calendar.
pub open spec fn task_wf(t: TaskV) -> bool {
    &&& str_wf(t.name)
    &&& str_wf(t.desc)
    &&& date_wf(t.due)
    &&& steps_wf(t.steps)
}

/// The pieces of a task encoding, each at its own position.
proof fn lemma_task_enc_split(b: Seq<u8>, pos: int, m: TaskV)
    requires
        has_enc(b, pos, enc_task(m)),
    ensures
        has_enc(b, pos, enc_str(m.name)),
        has_enc(b, pos + enc_str(m.name).len(), enc_str(m.desc)),
        has_enc(b, pos + enc_str(m.name).len() + enc_str(m.desc).len(), enc_date(m.due)),
        has_enc(
            b,
            pos + enc_str(m.name).len() + enc_str(m.desc).len() + 4,
            enc_steps(m.steps),
        ),
{
    assert(enc_task(m) == ((enc_str(m.name) + enc_str(m.desc)) + enc_date(m.due)) + enc_steps(
        m.steps,
    ));
    lemma_has_enc_split(
        b,
        pos,
        (enc_str(m.name) + enc_str(m.desc)) + enc_date(m.due),
        enc_steps(m.steps),
    );
    lemma_has_enc_split(b, pos, enc_str(m.name) + enc_str(m.desc), enc_date(m.due));
    lemma_has_enc_split(b, pos, enc_str(m.name), enc_str(m.desc));
}

fn write_task(out: &mut Vec<u8>, t: &Task)
    ensures
        final(out)@ == old(out)@ + enc_task(t@),
{
    write_str(out, &t.name);
    write_str(out, &t.desc);
    write_date(out, &t.due);
    write_steps(out, &t.steps);
    proof {
        assert(steps_model(t.steps@) =~= t@.steps);
        assert(final(out)@ =~= old(out)@ + enc_task(t@));
    }
}

/// Read a task: succeeds exactly on the encoding of a task whose date is a
/// real calendar day, and returns that task.
fn read_task(b: &Vec<u8>, pos: usize) -> (r: Result<(Task, usize), DecodeError>)
    requires
        pos <= b@.len(),
    ensures
        r matches Ok((t, end)) ==> pos <= end <= b@.len() && has_enc(b@, pos as int, enc_task(t@))
            && end == pos + enc_task(t@).len() && task_wf(t@),
        forall|m: TaskV|
            task_wf(m) && has_enc(b@, pos as int, #[trigger] enc_task(m)) ==> (r matches Ok(
                (t, end),
            ) && t@ == m && end == pos + enc_task(m).len()),
{
    let (name, q1) = match read_str(b, pos) {
        Ok(v) => v,
        Err(e) => {
            proof {
                assert forall|m: TaskV|
                    !(task_wf(m) && has_enc(b@, pos as int, #[trigger] enc_task(m))) by {
                    if task_wf(m) && has_enc(b@, pos as int, enc_task(m)) {
                        lemma_task_enc_split(b@, pos as int, m);
                    }
                }
            }
            return Err(e);
        },
    };
    let (desc, q2) = match read_str(b, q1) {
        Ok(v) => v,
        Err(e) => {
            proof {
                assert forall|m: TaskV|
                    !(task_wf(m) && has_enc(b@, pos as int, #[trigger] enc_task(m))) by {
                    if task_wf(m) && has_enc(b@, pos as int, enc_task(m)) {
                        lemma_task_enc_split(b@, pos as int, m);
                    }
                }
            }
            return Err(e);
        },
    };
    let (due, q3) = match read_date(b, q2) {
        Ok(v) => v,
        Err(e) => {
            proof {
                assert forall|m: TaskV|
                    !(task_wf(m) && has_enc(b@, pos as int, #[trigger] enc_task(m))) by {
                    if task_wf(m) && has_enc(b@, pos as int, enc_task(m)) {
                        lemma_task_enc_split(b@, pos as int, m);
                    }
                }
            }
            return Err(e);
        },
    };
    let (steps, q4) = match read_steps(b, q3) {
        Ok(v) => v,
        Err(e) => {
            proof {
                assert forall|m: TaskV|
                    !(task_wf(m) && has_enc(b@, pos as int, #[trigger] enc_task(m))) by {
                    if task_wf(m) && has_enc(b@, pos as int, enc_task(m)) {
                        lemma_task_enc_split(b@, pos as int, m);
                    }
                }
            }
            return Err(e);
        },
    };
    let t = Task { name, desc, due, steps };
    proof {
        assert(steps_model(t.steps@) =~= t@.steps);
        assert(enc_task(t@) == ((enc_str(t@.name) + enc_str(t@.desc)) + enc_date(t@.due))
            + enc_steps(t@.steps));
        lemma_has_enc_split(b@, pos as int, enc_str(t@.name), enc_str(t@.desc));
        lemma_has_enc_split(b@, pos as int, enc_str(t@.name) + enc_str(t@.desc), enc_date(t@.due));
        lemma_has_enc_split(
            b@,
            pos as int,
            (enc_str(t@.name) + enc_str(t@.desc)) + enc_date(t@.due),
            enc_steps(t@.steps),
        );
        assert(has_enc(b@, pos as int, enc_task(t@)));
        assert forall|m: TaskV|
            task_wf(m) && has_enc(b@, pos as int, #[trigger] enc_task(m)) implies t@ == m by {
            lemma_task_enc_split(b@, pos as int, m);
        }
    }
    Ok((t, q4))
}

/// A meeting time as its day, start and end.
pub open spec fn enc_time_entry(e: (Day, Time, Time)) -> Seq<u8> {
    enc_day(e.0) + enc_time(e.1) + enc_time(e.2)
}

/// The meeting-time encoder, as a named function value for list encodings.
pub open spec fn enc_time_entry_fn() -> spec_fn((Day, Time, Time)) -> Seq<u8> {
    |e: (Day, Time, Time)| enc_time_entry(e)
}

/// A meeting-time list as a length-prefixed list of entry encodings.
pub open spec fn enc_times(s: Seq<(Day, Time, Time)>) -> Seq<u8> {
    enc_list(s, enc_time_entry_fn())
}

/// Every entry's times are real times of day.
pub open spec fn times_cal_wf(s: Seq<(Day, Time, Time)>) -> bool {
    forall|i: int|
        0 <= i < s.len() ==> time_wf((#[trigger] s[i]).1) && time_wf(s[i].2)
}

/// The meeting-time list fits this machine and the clock.
pub open spec fn times_wf(s: Seq<(Day, Time, Time)>) -> bool {
    s.len() <= usize::MAX as int && times_cal_wf(s)
}

fn write_times(out: &mut Vec<u8>, times: &Vec<(Day, Time, Time)>)
    ensures
        final(out)@ == old(out)@ + enc_times(times@),
{
    proof {
        lemma_pow256_values();
    }
    let n = times.len();
    write_le(out, n as u64, 8);
    let mut i: usize = 0;
    while i < n
        invariant
            n == times@.len(),
            i <= n,
            out@ == old(out)@ + enc_le(n as int, 8) + enc_items(
                times@.take(i as int),
                enc_time_entry_fn(),
            ),
        decreases n - i,
    {
        let (d, t1, t2) = times[i];
        write_day(out, d);
        write_time(out, &t1);
        write_time(out, &t2);
        proof {
            lemma_enc_items_push(times@.take(i as int), enc_time_entry_fn(), times@[i as int]);
            assert(times@.take(i as int).push(times@[i as int]) =~= times@.take(i as int + 1));
            assert(out@ =~= old(out)@ + enc_le(n as int, 8) + enc_items(
                times@.take(i as int + 1),
                enc_time_entry_fn(),
            ));
        }
        i += 1;
    }
    proof {
        assert(times@.take(n as int) =~= times@);
        assert(final(out)@ =~= old(out)@ + enc_times(times@));
    }
}

/// Read a meeting-time list: succeeds exactly on a length prefix and that
/// many entry encodings, and returns the one list that encodes to them.
fn read_times(b: &Vec<u8>, pos: usize) -> (r: Result<
    (Vec<(Day, Time, Time)>, usize),
    DecodeError,
>)
    requires
        pos <= b@.len(),
    ensures
        r matches Ok((v, end)) ==> pos <= end <= b@.len() && has_enc(
            b@,
            pos as int,
            enc_times(v@),
        ) && end == pos + enc_times(v@).len() && times_wf(v@),
        forall|m: Seq<(Day, Time, Time)>|
            times_wf(m) && has_enc(b@, pos as int, #[trigger] enc_times(m)) ==> (r matches Ok(
                (v, end),
            ) && v@ == m && end == pos + enc_times(m).len()),
{
    proof {
        lemma_pow256_values();
        assert forall|m: Seq<(Day, Time, Time)>|
            times_wf(m) && has_enc(b@, pos as int, #[trigger] enc_times(m)) implies {
            &&& has_enc(b@, pos as int, enc_le(m.len() as int, 8))
            &&& has_enc(b@, pos as int + 8, enc_items(m, enc_time_entry_fn()))
            &&& m.len() < pow256(8)
        } by {
            lemma_has_enc_split(b@, pos as int, enc_le(m.len() as int, 8), enc_items(
                m,
                enc_time_entry_fn(),
            ));
        }
    }
    let (count, p1) = match read_le(b, pos, 8) {
        Ok(v) => v,
        Err(e) => {
            return Err(e);
        },
    };
    if count > usize::MAX as u64 {
        return Err(DecodeError);
    }
    let n = count as usize;
    let mut acc: Vec<(Day, Time, Time)> = Vec::new();
    let mut cur: usize = p1;
    let mut i: usize = 0;
    proof {
        assert(b@.subrange(p1 as int, p1 as int) =~= enc_items(acc@, enc_time_entry_fn()));
        assert forall|m: Seq<(Day, Time, Time)>|
            times_wf(m) && has_enc(b@, pos as int, #[trigger] enc_times(m)) implies m.len()
            == n as int && acc@ == m.take(0) && has_enc(
            b@,
            p1 as int,
            enc_items(m.skip(0), enc_time_entry_fn()),
        ) by {
            assert(acc@ =~= m.take(0));
            assert(m.skip(0) =~= m);
        }
    }
    while i < n
        invariant
            i <= n,
            pos + 8 == p1,
            p1 <= cur <= b@.len(),
            acc@.len() == i as int,
            times_wf(acc@),
            b@.subrange(p1 as int, cur as int) == enc_items(acc@, enc_time_entry_fn()),
            cur as int == p1 + enc_items(acc@, enc_time_entry_fn()).len(),
            forall|m: Seq<(Day, Time, Time)>|
                times_wf(m) && has_enc(b@, pos as int, #[trigger] enc_times(m)) ==> m.len()
                    == n as int && acc@ == m.take(i as int) && has_enc(
                    b@,
                    cur as int,
                    enc_items(m.skip(i as int), enc_time_entry_fn()),
                ),
        decreases n - i,
    {
        proof {
            assert forall|m: Seq<(Day, Time, Time)>|
                times_wf(m) && has_enc(b@, pos as int, #[trigger] enc_times(m)) implies {
                &&& has_enc(b@, cur as int, enc_day(m[i as int].0))
                &&& has_enc(b@, cur as int + 1, enc_time(m[i as int].1))
                &&& has_enc(b@, cur as int + 3, enc_time(m[i as int].2))
                &&& time_wf(m[i as int].1)
                &&& time_wf(m[i as int].2)
            } by {
                let rest = m.skip(i as int);
                assert(rest.drop_first() =~= m.skip(i as int + 1));
                assert(rest[0] == m[i as int]);
                assert(enc_items(rest, enc_time_entry_fn()) == enc_time_entry(m[i as int])
                    + enc_items(m.skip(i as int + 1), enc_time_entry_fn()));
                lemma_has_enc_split(b@, cur as int, enc_time_entry(m[i as int]), enc_items(
                    m.skip(i as int + 1),
                    enc_time_entry_fn(),
                ));
                assert(enc_time_entry(m[i as int]) == (enc_day(m[i as int].0) + enc_time(
                    m[i as int].1,
                )) + enc_time(m[i as int].2));
                lemma_has_enc_split(b@, cur as int, enc_day(m[i as int].0) + enc_time(
                    m[i as int].1,
                ), enc_time(m[i as int].2));
                lemma_has_enc_split(b@, cur as int, enc_day(m[i as int].0), enc_time(
                    m[i as int].1,
                ));
            }
        }
        let (d, c1) = match read_day(b, cur) {
            Ok(v) => v,
            Err(e) => {
                return Err(e);
            },
        };
        let (t1, c2) = match read_time(b, c1) {
            Ok(v) => v,
            Err(e) => {
                return Err(e);
            },
        };
        let (t2, c3) = match read_time(b, c2) {
            Ok(v) => v,
            Err(e) => {
                return Err(e);
            },
        };
        let ghost oldacc = acc@;
        acc.push((d, t1, t2));
        proof {
            let x = (d, t1, t2);
            lemma_enc_items_push(oldacc, enc_time_entry_fn(), x);
            assert(enc_time_entry(x) == (enc_day(d) + enc_time(t1)) + enc_time(t2));
            lemma_has_enc_split(b@, cur as int, enc_day(d), enc_time(t1));
            lemma_has_enc_split(b@, cur as int, enc_day(d) + enc_time(t1), enc_time(t2));
            assert(b@.subrange(cur as int, c3 as int) =~= (enc_day(d) + enc_time(t1)) + enc_time(
                t2,
            ));
            assert(b@.subrange(p1 as int, c3 as int) =~= b@.subrange(p1 as int, cur as int)
                + b@.subrange(cur as int, c3 as int));
            assert(b@.subrange(p1 as int, c3 as int) == enc_items(acc@, enc_time_entry_fn()));
            assert forall|m: Seq<(Day, Time, Time)>|
                times_wf(m) && has_enc(b@, pos as int, #[trigger] enc_times(m)) implies acc@
                == m.take(i as int + 1) && has_enc(
                b@,
                c3 as int,
                enc_items(m.skip(i as int + 1), enc_time_entry_fn()),
            ) by {
                assert(m[i as int].0 == d && m[i as int].1 == t1 && m[i as int].2 == t2);
                assert(oldacc.push(x) =~= m.take(i as int + 1));
                let rest = m.skip(i as int);
                assert(rest.drop_first() =~= m.skip(i as int + 1));
                assert(rest[0] == m[i as int]);
                assert(enc_items(rest, enc_time_entry_fn()) == enc_time_entry(m[i as int])
                    + enc_items(m.skip(i as int + 1), enc_time_entry_fn()));
                lemma_has_enc_split(b@, cur as int, enc_time_entry(m[i as int]), enc_items(
                    m.skip(i as int + 1),
                    enc_time_entry_fn(),
                ));
                assert(enc_time_entry(m[i as int]).len() == 5);
            }
        }
        cur = c3;
        i += 1;
    }
    proof {
        assert(b@.subrange(pos as int, p1 as int) == enc_le(count as int, 8));
        lemma_has_enc_split(b@, pos as int, enc_le(n as int, 8), enc_items(
            acc@,
            enc_time_entry_fn(),
        ));
        assert(has_enc(b@, pos as int, enc_times(acc@)));
        assert forall|m: Seq<(Day, Time, Time)>|
            times_wf(m) && has_enc(b@, pos as int, #[trigger] enc_times(m)) implies acc@ == m
            && cur == pos + enc_times(m).len() by {
            assert(m.take(n as int) =~= m);
        }
    }
    Ok((acc, cur))
}

/// The task encoder, as a named function value for list encodings.
pub open spec fn enc_task_fn() -> spec_fn(TaskV) -> Seq<u8> {
    |t: TaskV| enc_task(t)
}

/// A task list as a length-prefixed list of task encodings.
pub open spec fn enc_tasks(s: Seq<TaskV>) -> Seq<u8> {
    enc_list(s, enc_task_fn())
}

/// The model of an executable task list.
pub open spec fn tasks_model(s: Seq<Task>) -> Seq<TaskV> {
    s.map_values(|t: Task| t@)
}

/// The task list fits this machine and the calendar.
pub open spec fn tasks_wf(s: Seq<TaskV>) -> bool {
    s.len() <= usize::MAX as int && (forall|i: int| 0 <= i < s.len() ==> task_wf(#[trigger] s[i]))
}

fn write_tasks(out: &mut Vec<u8>, tasks: &Vec<Task>)
    ensures
        final(out)@ == old(out)@ + enc_tasks(tasks_model(tasks@)),
{
    proof {
        lemma_pow256_values();
    }
    let n = tasks.len();
    write_le(out, n as u64, 8);
    let mut i: usize = 0;
    while i < n
        invariant
            n == tasks@.len(),
            i <= n,
            out@ == old(out)@ + enc_le(n as int, 8) + enc_items(
                tasks_model(tasks@).take(i as int),
                enc_task_fn(),
            ),
        decreases n - i,
    {
        proof {
            assert(tasks_model(tasks@)[i as int] == tasks@[i as int]@);
        }
        write_task(out, &tasks[i]);
        proof {
            let ghost mdl = tasks_model(tasks@);
            lemma_enc_items_push(mdl.take(i as int), enc_task_fn(), mdl[i as int]);
            assert(mdl.take(i as int).push(mdl[i as int]) =~= mdl.take(i as int + 1));
            assert(out@ =~= old(out)@ + enc_le(n as int, 8) + enc_items(
                mdl.take(i as int + 1),
                enc_task_fn(),
            ));
        }
        i += 1;
    }
    proof {
        assert(tasks_model(tasks@).take(n as int) =~= tasks_model(tasks@));
        assert(final(out)@ =~= old(out)@ + enc_tasks(tasks_model(tasks@)));
    }
}

/// Read a task list: succeeds exactly on a length prefix and that many
/// task encodings, and returns the one list that encodes to them.
fn read_tasks(b: &Vec<u8>, pos: usize) -> (r: Result<(Vec<Task>, usize), DecodeError>)
    requires
        pos <= b@.len(),
    ensures
        r matches Ok((v, end)) ==> pos <= end <= b@.len() && has_enc(
            b@,
            pos as int,
            enc_tasks(tasks_model(v@)),
        ) && end == pos + enc_tasks(tasks_model(v@)).len() && tasks_wf(tasks_model(v@)),
        forall|m: Seq<TaskV>|
            tasks_wf(m) && has_enc(b@, pos as int, #[trigger] enc_tasks(m)) ==> (r matches Ok(
                (v, end),
            ) && tasks_model(v@) == m && end == pos + enc_tasks(m).len()),
{
    proof {
        lemma_pow256_values();
        assert forall|m: Seq<TaskV>|
            tasks_wf(m) && has_enc(b@, pos as int, #[trigger] enc_tasks(m)) implies {
            &&& has_enc(b@, pos as int, enc_le(m.len() as int, 8))
            &&& has_enc(b@, pos as int + 8, enc_items(m, enc_task_fn()))
            &&& m.len() < pow256(8)
        } by {
            lemma_has_enc_split(b@, pos as int, enc_le(m.len() as int, 8), enc_items(
                m,
                enc_task_fn(),
            ));
        }
    }
    let (count, p1) = match read_le(b, pos, 8) {
        Ok(v) => v,
        Err(e) => {
            return Err(e);
        },
    };
    if count > usize::MAX as u64 {
        return Err(DecodeError);
    }
    let n = count as usize;
    let mut acc: Vec<Task> = Vec::new();
    let mut cur: usize = p1;
    let mut i: usize = 0;
    proof {
        assert(b@.subrange(p1 as int, p1 as int) =~= enc_items(
            tasks_model(acc@),
            enc_task_fn(),
        ));
        assert forall|m: Seq<TaskV>|
            tasks_wf(m) && has_enc(b@, pos as int, #[trigger] enc_tasks(m)) implies m.len()
            == n as int && tasks_model(acc@) == m.take(0) && has_enc(
            b@,
            p1 as int,
            enc_items(m.skip(0), enc_task_fn()),
        ) by {
            assert(tasks_model(acc@) =~= m.take(0));
            assert(m.skip(0) =~= m);
        }
    }
    while i < n
        invariant
            i <= n,
            pos + 8 == p1,
            p1 <= cur <= b@.len(),
            acc@.len() == i as int,
            tasks_wf(tasks_model(acc@)),
            b@.subrange(p1 as int, cur as int) == enc_items(tasks_model(acc@), enc_task_fn()),
            cur as int == p1 + enc_items(tasks_model(acc@), enc_task_fn()).len(),
            forall|m: Seq<TaskV>|
                tasks_wf(m) && has_enc(b@, pos as int, #[trigger] enc_tasks(m)) ==> m.len()
                    == n as int && tasks_model(acc@) == m.take(i as int) && has_enc(
                    b@,
                    cur as int,
                    enc_items(m.skip(i as int), enc_task_fn()),
                ),
        decreases n - i,
    {
        proof {
            assert forall|m: Seq<TaskV>|
                tasks_wf(m) && has_enc(b@, pos as int, #[trigger] enc_tasks(m)) implies {
                &&& has_enc(b@, cur as int, enc_task(m[i as int]))
                &&& task_wf(m[i as int])
            } by {
                let rest = m.skip(i as int);
                assert(rest.drop_first() =~= m.skip(i as int + 1));
                assert(rest[0] == m[i as int]);
                assert(enc_items(rest, enc_task_fn()) == enc_task(m[i as int]) + enc_items(
                    m.skip(i as int + 1),
                    enc_task_fn(),
                ));
                lemma_has_enc_split(b@, cur as int, enc_task(m[i as int]), enc_items(
                    m.skip(i as int + 1),
                    enc_task_fn(),
                ));
            }
        }
        let (t, c1) = match read_task(b, cur) {
            Ok(v) => v,
            Err(e) => {
                return Err(e);
            },
        };
        let ghost oldacc = acc@;
        acc.push(t);
        proof {
            let x = t@;
            assert(tasks_model(acc@) =~= tasks_model(oldacc).push(x));
            lemma_enc_items_push(tasks_model(oldacc), enc_task_fn(), x);
            assert(b@.subrange(p1 as int, c1 as int) =~= b@.subrange(p1 as int, cur as int)
                + b@.subrange(cur as int, c1 as int));
            assert(b@.subrange(p1 as int, c1 as int) == enc_items(
                tasks_model(acc@),
                enc_task_fn(),
            ));
            assert forall|m: Seq<TaskV>|
                tasks_wf(m) && has_enc(b@, pos as int, #[trigger] enc_tasks(m)) implies
                tasks_model(acc@) == m.take(i as int + 1) && has_enc(
                b@,
                c1 as int,
                enc_items(m.skip(i as int + 1), enc_task_fn()),
            ) by {
                assert(x == m[i as int]);
                assert(tasks_model(oldacc).push(x) =~= m.take(i as int + 1));
                let rest = m.skip(i as int);
                assert(rest.drop_first() =~= m.skip(i as int + 1));
                assert(rest[0] == m[i as int]);
                assert(enc_items(rest, enc_task_fn()) == enc_task(m[i as int]) + enc_items(
                    m.skip(i as int + 1),
                    enc_task_fn(),
                ));
                lemma_has_enc_split(b@, cur as int, enc_task(m[i as int]), enc_items(
                    m.skip(i as int + 1),
                    enc_task_fn(),
                ));
            }
        }
        cur = c1;
        i += 1;
    }
    proof {
        assert(b@.subrange(pos as int, p1 as int) == enc_le(count as int, 8));
        lemma_has_enc_split(b@, pos as int, enc_le(n as int, 8), enc_items(
            tasks_model(acc@),
            enc_task_fn(),
        ));
        assert(has_enc(b@, pos as int, enc_tasks(tasks_model(acc@))));
        assert forall|m: Seq<TaskV>|
            tasks_wf(m) && has_enc(b@, pos as int, #[trigger] enc_tasks(m)) implies tasks_model(
            acc@,
        ) == m && cur == pos + enc_tasks(m).len() by {
            assert(m.take(n as int) =~= m);
        }
    }
    Ok((acc, cur))
}

/// A course as its name, teacher, room, meeting-time list and task list.
pub open spec fn enc_course(c: CourseV) -> Seq<u8> {
    enc_str(c.name) + enc_str(c.teacher) + enc_str(c.room) + enc_times(c.times) + enc_tasks(
        c.tasks,
    )
}

/// The course fits this machine and the calendar.
pub open spec fn course_wf(c: CourseV) -> bool {
    &&& str_wf(c.name)
    &&& str_wf(c.teacher)
    &&& str_wf(c.room)
    &&& times_wf(c.times)
    &&& tasks_wf(c.tasks)
}

/// The pieces of a course encoding, each at its own position.
proof fn lemma_course_enc_split(b: Seq<u8>, pos: int, m: CourseV)
    requires
        has_enc(b, pos, enc_course(m)),
    ensures
        has_enc(b, pos, enc_str(m.name)),
        has_enc(b, pos + enc_str(m.name).len(), enc_str(m.teacher)),
        has_enc(
            b,
            pos + enc_str(m.name).len() + enc_str(m.teacher).len(),
            enc_str(m.room),
        ),
        has_enc(
            b,
            pos + enc_str(m.name).len() + enc_str(m.teacher).len() + enc_str(m.room).len(),
            enc_times(m.times),
        ),
        has_enc(
            b,
            pos + enc_str(m.name).len() + enc_str(m.teacher).len() + enc_str(m.room).len()
                + enc_times(m.times).len(),
            enc_tasks(m.tasks),
        ),
{
    assert(enc_course(m) == (((enc_str(m.name) + enc_str(m.teacher)) + enc_str(m.room))
        + enc_times(m.times)) + enc_tasks(m.tasks));
    lemma_has_enc_split(
        b,
        pos,
        ((enc_str(m.name) + enc_str(m.teacher)) + enc_str(m.room)) + enc_times(m.times),
        enc_tasks(m.tasks),
    );
    lemma_has_enc_split(
        b,
        pos,
        (enc_str(m.name) + enc_str(m.teacher)) + enc_str(m.room),
        enc_times(m.times),
    );
    lemma_has_enc_split(b, pos, enc_str(m.name) + enc_str(m.teacher), enc_str(m.room));
    lemma_has_enc_split(b, pos, enc_str(m.name), enc_str(m.teacher));
}

fn write_course(out: &mut Vec<u8>, c: &Course)
    ensures
        final(out)@ == old(out)@ + enc_course(c@),
{
    proof {
        assert(tasks_model(c.tasks@) =~= c@.tasks);
    }
    write_str(out, &c.name);
    write_str(out, &c.teacher);
    write_str(out, &c.room);
    write_times(out, &c.times);
    write_tasks(out, &c.tasks);
    proof {
        assert(final(out)@ =~= old(out)@ + enc_course(c@));
    }
}

/// Read a course: succeeds exactly on the encoding of a course whose dates
/// and times are real calendar values, and returns that course.
fn read_course(b: &Vec<u8>, pos: usize) -> (r: Result<(Course, usize), DecodeError>)
    requires
        pos <= b@.len(),
    ensures
        r matches Ok((c, end)) ==> pos <= end <= b@.len() && has_enc(
            b@,
            pos as int,
            enc_course(c@),
        ) && end == pos + enc_course(c@).len() && course_wf(c@),
        forall|m: CourseV|
            course_wf(m) && has_enc(b@, pos as int, #[trigger] enc_course(m)) ==> (r matches Ok(
                (c, end),
            ) && c@ == m && end == pos + enc_course(m).len()),
{
    let (name, q1) = match read_str(b, pos) {
        Ok(v) => v,
        Err(e) => {
            proof {
                assert forall|m: CourseV|
                    !(course_wf(m) && has_enc(b@, pos as int, #[trigger] enc_course(m))) by {
                    if course_wf(m) && has_enc(b@, pos as int, enc_course(m)) {
                        lemma_course_enc_split(b@, pos as int, m);
                    }
                }
            }
            return Err(e);
        },
    };
    let (teacher, q2) = match read_str(b, q1) {
        Ok(v) => v,
        Err(e) => {
            proof {
                assert forall|m: CourseV|
                    !(course_wf(m) && has_enc(b@, pos as int, #[trigger] enc_course(m))) by {
                    if course_wf(m) && has_enc(b@, pos as int, enc_course(m)) {
                        lemma_course_enc_split(b@, pos as int, m);
                    }
                }
            }
            return Err(e);
        },
    };
    let (room, q3) = match read_str(b, q2) {
        Ok(v) => v,
        Err(e) => {
            proof {
                assert forall|m: CourseV|
                    !(course_wf(m) && has_enc(b@, pos as int, #[trigger] enc_course(m))) by {
                    if course_wf(m) && has_enc(b@, pos as int, enc_course(m)) {
                        lemma_course_enc_split(b@, pos as int, m);
                    }
                }
            }
            return Err(e);
        },
    };
    let (times, q4) = match read_times(b, q3) {
        Ok(v) => v,
        Err(e) => {
            proof {
                assert forall|m: CourseV|
                    !(course_wf(m) && has_enc(b@, pos as int, #[trigger] enc_course(m))) by {
                    if course_wf(m) && has_enc(b@, pos as int, enc_course(m)) {
                        lemma_course_enc_split(b@, pos as int, m);
                    }
                }
            }
            return Err(e);
        },
    };
    let (tasks, q5) = match read_tasks(b, q4) {
        Ok(v) => v,
        Err(e) => {
            proof {
                assert forall|m: CourseV|
                    !(course_wf(m) && has_enc(b@, pos as int, #[trigger] enc_course(m))) by {
                    if course_wf(m) && has_enc(b@, pos as int, enc_course(m)) {
                        lemma_course_enc_split(b@, pos as int, m);
                    }
                }
            }
            return Err(e);
        },
    };
    let c = Course { name, teacher, room, times, tasks };
    proof {
        assert(tasks_model(c.tasks@) =~= c@.tasks);
        assert(enc_course(c@) == (((enc_str(c@.name) + enc_str(c@.teacher)) + enc_str(c@.room))
            + enc_times(c@.times)) + enc_tasks(c@.tasks));
        lemma_has_enc_split(b@, pos as int, enc_str(c@.name), enc_str(c@.teacher));
        lemma_has_enc_split(b@, pos as int, enc_str(c@.name) + enc_str(c@.teacher), enc_str(
            c@.room,
        ));
        lemma_has_enc_split(
            b@,
            pos as int,
            (enc_str(c@.name) + enc_str(c@.teacher)) + enc_str(c@.room),
            enc_times(c@.times),
        );
        lemma_has_enc_split(
            b@,
            pos as int,
            ((enc_str(c@.name) + enc_str(c@.teacher)) + enc_str(c@.room)) + enc_times(c@.times),
            enc_tasks(c@.tasks),
        );
        assert(has_enc(b@, pos as int, enc_course(c@)));
        assert forall|m: CourseV|
            course_wf(m) && has_enc(b@, pos as int, #[trigger] enc_course(m)) implies c@ == m by {
            lemma_course_enc_split(b@, pos as int, m);
        }
    }
    Ok((c, q5))
}

/// A holiday as its starting and ending dates.
pub open spec fn enc_holiday(h: (Date, Date)) -> Seq<u8> {
    enc_date(h.0) + enc_date(h.1)
}

/// The holiday encoder, as a named function value for list encodings.
pub open spec fn enc_holiday_fn() -> spec_fn((Date, Date)) -> Seq<u8> {
    |h: (Date, Date)| enc_holiday(h)
}

/// A holiday list as a length-prefixed list of holiday encodings.
pub open spec fn enc_holidays(s: Seq<(Date, Date)>) -> Seq<u8> {
    enc_list(s, enc_holiday_fn())
}

/// Every holiday's dates are real calendar days.
pub open spec fn holidays_cal_wf(s: Seq<(Date, Date)>) -> bool {
    forall|i: int|
        0 <= i < s.len() ==> date_wf((#[trigger] s[i]).0) && date_wf(s[i].1)
}

/// The holiday list fits this machine and the calendar.
pub open spec fn holidays_wf(s: Seq<(Date, Date)>) -> bool {
    s.len() <= usize::MAX as int && holidays_cal_wf(s)
}

fn write_holidays(out: &mut Vec<u8>, holidays: &Vec<(Date, Date)>)
    ensures
        final(out)@ == old(out)@ + enc_holidays(holidays@),
{
    proof {
        lemma_pow256_values();
    }
    let n = holidays.len();
    write_le(out, n as u64, 8);
    let mut i: usize = 0;
    while i < n
        invariant
            n == holidays@.len(),
            i <= n,
            out@ == old(out)@ + enc_le(n as int, 8) + enc_items(
                holidays@.take(i as int),
                enc_holiday_fn(),
            ),
        decreases n - i,
    {
        let (d1, d2) = holidays[i];
        write_date(out, &d1);
        write_date(out, &d2);
        proof {
            lemma_enc_items_push(holidays@.take(i as int), enc_holiday_fn(), holidays@[i as int]);
            assert(holidays@.take(i as int).push(holidays@[i as int]) =~= holidays@.take(
                i as int + 1,
            ));
            assert(out@ =~= old(out)@ + enc_le(n as int, 8) + enc_items(
                holidays@.take(i as int + 1),
                enc_holiday_fn(),
            ));
        }
        i += 1;
    }
    proof {
        assert(holidays@.take(n as int) =~= holidays@);
        assert(final(out)@ =~= old(out)@ + enc_holidays(holidays@));
    }
}

/// Read a holiday list: succeeds exactly on a length prefix and that many
/// holiday encodings, and returns the one list that encodes to them.
fn read_holidays(b: &Vec<u8>, pos: usize) -> (r: Result<(Vec<(Date, Date)>, usize), DecodeError>)
    requires
        pos <= b@.len(),
    ensures
        r matches Ok((v, end)) ==> pos <= end <= b@.len() && has_enc(
            b@,
            pos as int,
            enc_holidays(v@),
        ) && end == pos + enc_holidays(v@).len() && holidays_wf(v@),
        forall|m: Seq<(Date, Date)>|
            holidays_wf(m) && has_enc(b@, pos as int, #[trigger] enc_holidays(m)) ==> (r matches Ok(
                (v, end),
            ) && v@ == m && end == pos + enc_holidays(m).len()),
{
    proof {
        lemma_pow256_values();
        assert forall|m: Seq<(Date, Date)>|
            holidays_wf(m) && has_enc(b@, pos as int, #[trigger] enc_holidays(m)) implies {
            &&& has_enc(b@, pos as int, enc_le(m.len() as int, 8))
            &&& has_enc(b@, pos as int + 8, enc_items(m, enc_holiday_fn()))
            &&& m.len() < pow256(8)
        } by {
            lemma_has_enc_split(b@, pos as int, enc_le(m.len() as int, 8), enc_items(
                m,
                enc_holiday_fn(),
            ));
        }
    }
    let (count, p1) = match read_le(b, pos, 8) {
        Ok(v) => v,
        Err(e) => {
            return Err(e);
        },
    };
    if count > usize::MAX as u64 {
        return Err(DecodeError);
    }
    let n = count as usize;
    let mut acc: Vec<(Date, Date)> = Vec::new();
    let mut cur: usize = p1;
    let mut i: usize = 0;
    proof {
        assert(b@.subrange(p1 as int, p1 as int) =~= enc_items(acc@, enc_holiday_fn()));
        assert forall|m: Seq<(Date, Date)>|
            holidays_wf(m) && has_enc(b@, pos as int, #[trigger] enc_holidays(m)) implies m.len()
            == n as int && acc@ == m.take(0) && has_enc(
            b@,
            p1 as int,
            enc_items(m.skip(0), enc_holiday_fn()),
        ) by {
            assert(acc@ =~= m.take(0));
            assert(m.skip(0) =~= m);
        }
    }
    while i < n
        invariant
            i <= n,
            pos + 8 == p1,
            p1 <= cur <= b@.len(),
            acc@.len() == i as int,
            holidays_wf(acc@),
            b@.subrange(p1 as int, cur as int) == enc_items(acc@, enc_holiday_fn()),
            cur as int == p1 + enc_items(acc@, enc_holiday_fn()).len(),
            forall|m: Seq<(Date, Date)>|
                holidays_wf(m) && has_enc(b@, pos as int, #[trigger] enc_holidays(m)) ==> m.len()
                    == n as int && acc@ == m.take(i as int) && has_enc(
                    b@,
                    cur as int,
                    enc_items(m.skip(i as int), enc_holiday_fn()),
                ),
        decreases n - i,
    {
        proof {
            assert forall|m: Seq<(Date, Date)>|
                holidays_wf(m) && has_enc(b@, pos as int, #[trigger] enc_holidays(m)) implies {
                &&& has_enc(b@, cur as int, enc_date(m[i as int].0))
                &&& has_enc(b@, cur as int + 4, enc_date(m[i as int].1))
                &&& date_wf(m[i as int].0)
                &&& date_wf(m[i as int].1)
            } by {
                let rest = m.skip(i as int);
                assert(rest.drop_first() =~= m.skip(i as int + 1));
                assert(rest[0] == m[i as int]);
                assert(enc_items(rest, enc_holiday_fn()) == enc_holiday(m[i as int]) + enc_items(
                    m.skip(i as int + 1),
                    enc_holiday_fn(),
                ));
                lemma_has_enc_split(b@, cur as int, enc_holiday(m[i as int]), enc_items(
                    m.skip(i as int + 1),
                    enc_holiday_fn(),
                ));
                lemma_has_enc_split(b@, cur as int, enc_date(m[i as int].0), enc_date(
                    m[i as int].1,
                ));
            }
        }
        let (d1, c1) = match read_date(b, cur) {
            Ok(v) => v,
            Err(e) => {
                return Err(e);
            },
        };
        let (d2, c2) = match read_date(b, c1) {
            Ok(v) => v,
            Err(e) => {
                return Err(e);
            },
        };
        let ghost oldacc = acc@;
        acc.push((d1, d2));
        proof {
            let x = (d1, d2);
            lemma_enc_items_push(oldacc, enc_holiday_fn(), x);
            lemma_has_enc_split(b@, cur as int, enc_date(d1), enc_date(d2));
            assert(b@.subrange(cur as int, c2 as int) =~= enc_date(d1) + enc_date(d2));
            assert(b@.subrange(p1 as int, c2 as int) =~= b@.subrange(p1 as int, cur as int)
                + b@.subrange(cur as int, c2 as int));
            assert(b@.subrange(p1 as int, c2 as int) == enc_items(acc@, enc_holiday_fn()));
            assert forall|m: Seq<(Date, Date)>|
                holidays_wf(m) && has_enc(b@, pos as int, #[trigger] enc_holidays(m)) implies acc@
                == m.take(i as int + 1) && has_enc(
                b@,
                c2 as int,
                enc_items(m.skip(i as int + 1), enc_holiday_fn()),
            ) by {
                assert(m[i as int].0 == d1 && m[i as int].1 == d2);
                assert(oldacc.push(x) =~= m.take(i as int + 1));
                let rest = m.skip(i as int);
                assert(rest.drop_first() =~= m.skip(i as int + 1));
                assert(rest[0] == m[i as int]);
                assert(enc_items(rest, enc_holiday_fn()) == enc_holiday(m[i as int]) + enc_items(
                    m.skip(i as int + 1),
                    enc_holiday_fn(),
                ));
                lemma_has_enc_split(b@, cur as int, enc_holiday(m[i as int]), enc_items(
                    m.skip(i as int + 1),
                    enc_holiday_fn(),
                ));
                assert(enc_holiday(m[i as int]).len() == 8);
            }
        }
        cur = c2;
        i += 1;
    }
    proof {
        assert(b@.subrange(pos as int, p1 as int) == enc_le(count as int, 8));
        lemma_has_enc_split(b@, pos as int, enc_le(n as int, 8), enc_items(
            acc@,
            enc_holiday_fn(),
        ));
        assert(has_enc(b@, pos as int, enc_holidays(acc@)));
        assert forall|m: Seq<(Date, Date)>|
            holidays_wf(m) && has_enc(b@, pos as int, #[trigger] enc_holidays(m)) implies acc@ == m
            && cur == pos + enc_holidays(m).len() by {
            assert(m.take(n as int) =~= m);
        }
    }
    Ok((acc, cur))
}

/// The course encoder, as a named function value for list encodings.
pub open spec fn enc_course_fn() -> spec_fn(CourseV) -> Seq<u8> {
    |c: CourseV| enc_course(c)
}

/// A course list as a length-prefixed list of course encodings.
pub open spec fn enc_courses(s: Seq<CourseV>) -> Seq<u8> {
    enc_list(s, enc_course_fn())
}

/// The model of an executable course list.
pub open spec fn courses_model(s: Seq<Course>) -> Seq<CourseV> {
    s.map_values(|c: Course| c@)
}

/// The course list fits this machine and the calendar.
pub open spec fn courses_wf(s: Seq<CourseV>) -> bool {
    s.len() <= usize::MAX as int && (forall|i: int| 0 <= i < s.len() ==> course_wf(#[trigger] s[i]))
}

fn write_courses(out: &mut Vec<u8>, courses: &Vec<Course>)
    ensures
        final(out)@ == old(out)@ + enc_courses(courses_model(courses@)),
{
    proof {
        lemma_pow256_values();
    }
    let n = courses.len();
    write_le(out, n as u64, 8);
    let mut i: usize = 0;
    while i < n
        invariant
            n == courses@.len(),
            i <= n,
            out@ == old(out)@ + enc_le(n as int, 8) + enc_items(
                courses_model(courses@).take(i as int),
                enc_course_fn(),
            ),
        decreases n - i,
    {
        proof {
            assert(courses_model(courses@)[i as int] == courses@[i as int]@);
        }
        write_course(out, &courses[i]);
        proof {
            let ghost mdl = courses_model(courses@);
            lemma_enc_items_push(mdl.take(i as int), enc_course_fn(), mdl[i as int]);
            assert(mdl.take(i as int).push(mdl[i as int]) =~= mdl.take(i as int + 1));
            assert(out@ =~= old(out)@ + enc_le(n as int, 8) + enc_items(
                mdl.take(i as int + 1),
                enc_course_fn(),
            ));
        }
        i += 1;
    }
    proof {
        assert(courses_model(courses@).take(n as int) =~= courses_model(courses@));
        assert(final(out)@ =~= old(out)@ + enc_courses(courses_model(courses@)));
    }
}

/// Read a course list: succeeds exactly on a length prefix and that many
/// course encodings, and returns the one list that encodes to them.
fn read_courses(b: &Vec<u8>, pos: usize) -> (r: Result<(Vec<Course>, usize), DecodeError>)
    requires
        pos <= b@.len(),
    ensures
        r matches Ok((v, end)) ==> pos <= end <= b@.len() && has_enc(
            b@,
            pos as int,
            enc_courses(courses_model(v@)),
        ) && end == pos + enc_courses(courses_model(v@)).len() && courses_wf(courses_model(v@)),
        forall|m: Seq<CourseV>|
            courses_wf(m) && has_enc(b@, pos as int, #[trigger] enc_courses(m)) ==> (r matches Ok(
                (v, end),
            ) && courses_model(v@) == m && end == pos + enc_courses(m).len()),
{
    proof {
        lemma_pow256_values();
        assert forall|m: Seq<CourseV>|
            courses_wf(m) && has_enc(b@, pos as int, #[trigger] enc_courses(m)) implies {
            &&& has_enc(b@, pos as int, enc_le(m.len() as int, 8))
            &&& has_enc(b@, pos as int + 8, enc_items(m, enc_course_fn()))
            &&& m.len() < pow256(8)
        } by {
            lemma_has_enc_split(b@, pos as int, enc_le(m.len() as int, 8), enc_items(
                m,
                enc_course_fn(),
            ));
        }
    }
    let (count, p1) = match read_le(b, pos, 8) {
        Ok(v) => v,
        Err(e) => {
            return Err(e);
        },
    };
    if count > usize::MAX as u64 {
        return Err(DecodeError);
    }
    let n = count as usize;
    let mut acc: Vec<Course> = Vec::new();
    let mut cur: usize = p1;
    let mut i: usize = 0;
    proof {
        assert(b@.subrange(p1 as int, p1 as int) =~= enc_items(
            courses_model(acc@),
            enc_course_fn(),
        ));
        assert forall|m: Seq<CourseV>|
            courses_wf(m) && has_enc(b@, pos as int, #[trigger] enc_courses(m)) implies m.len()
            == n as int && courses_model(acc@) == m.take(0) && has_enc(
            b@,
            p1 as int,
            enc_items(m.skip(0), enc_course_fn()),
        ) by {
            assert(courses_model(acc@) =~= m.take(0));
            assert(m.skip(0) =~= m);
        }
    }
    while i < n
        invariant
            i <= n,
            pos + 8 == p1,
            p1 <= cur <= b@.len(),
            acc@.len() == i as int,
            courses_wf(courses_model(acc@)),
            b@.subrange(p1 as int, cur as int) == enc_items(courses_model(acc@), enc_course_fn()),
            cur as int == p1 + enc_items(courses_model(acc@), enc_course_fn()).len(),
            forall|m: Seq<CourseV>|
                courses_wf(m) && has_enc(b@, pos as int, #[trigger] enc_courses(m)) ==> m.len()
                    == n as int && courses_model(acc@) == m.take(i as int) && has_enc(
                    b@,
                    cur as int,
                    enc_items(m.skip(i as int), enc_course_fn()),
                ),
        decreases n - i,
    {
        proof {
            assert forall|m: Seq<CourseV>|
                courses_wf(m) && has_enc(b@, pos as int, #[trigger] enc_courses(m)) implies {
                &&& has_enc(b@, cur as int, enc_course(m[i as int]))
                &&& course_wf(m[i as int])
            } by {
                let rest = m.skip(i as int);
                assert(rest.drop_first() =~= m.skip(i as int + 1));
                assert(rest[0] == m[i as int]);
                assert(enc_items(rest, enc_course_fn()) == enc_course(m[i as int]) + enc_items(
                    m.skip(i as int + 1),
                    enc_course_fn(),
                ));
                lemma_has_enc_split(b@, cur as int, enc_course(m[i as int]), enc_items(
                    m.skip(i as int + 1),
                    enc_course_fn(),
                ));
            }
        }
        let (c, c1) = match read_course(b, cur) {
            Ok(v) => v,
            Err(e) => {
                return Err(e);
            },
        };
        let ghost oldacc = acc@;
        acc.push(c);
        proof {
            let x = c@;
            assert(courses_model(acc@) =~= courses_model(oldacc).push(x));
            lemma_enc_items_push(courses_model(oldacc), enc_course_fn(), x);
            assert(b@.subrange(p1 as int, c1 as int) =~= b@.subrange(p1 as int, cur as int)
                + b@.subrange(cur as int, c1 as int));
            assert(b@.subrange(p1 as int, c1 as int) == enc_items(
                courses_model(acc@),
                enc_course_fn(),
            ));
            assert forall|m: Seq<CourseV>|
                courses_wf(m) && has_enc(b@, pos as int, #[trigger] enc_courses(m)) implies
                courses_model(acc@) == m.take(i as int + 1) && has_enc(
                b@,
                c1 as int,
                enc_items(m.skip(i as int + 1), enc_course_fn()),
            ) by {
                assert(x == m[i as int]);
                assert(courses_model(oldacc).push(x) =~= m.take(i as int + 1));
                let rest = m.skip(i as int);
                assert(rest.drop_first() =~= m.skip(i as int + 1));
                assert(rest[0] == m[i as int]);
                assert(enc_items(rest, enc_course_fn()) == enc_course(m[i as int]) + enc_items(
                    m.skip(i as int + 1),
                    enc_course_fn(),
                ));
                lemma_has_enc_split(b@, cur as int, enc_course(m[i as int]), enc_items(
                    m.skip(i as int + 1),
                    enc_course_fn(),
                ));
            }
        }
        cur = c1;
        i += 1;
    }
    proof {
        assert(b@.subrange(pos as int, p1 as int) == enc_le(count as int, 8));
        lemma_has_enc_split(b@, pos as int, enc_le(n as int, 8), enc_items(
            courses_model(acc@),
            enc_course_fn(),
        ));
        assert(has_enc(b@, pos as int, enc_courses(courses_model(acc@))));
        assert forall|m: Seq<CourseV>|
            courses_wf(m) && has_enc(b@, pos as int, #[trigger] enc_courses(m)) implies
            courses_model(acc@) == m && cur == pos + enc_courses(m).len() by {
            assert(m.take(n as int) =~= m);
        }
    }
    Ok((acc, cur))
}

/// The aggregate as its course list followed by its holiday list.
pub open spec fn enc_app(a: ApplicationV) -> Seq<u8> {
    enc_courses(a.courses) + enc_holidays(a.holidays)
}

/// The aggregate fits this machine and the calendar.
pub open spec fn app_wf(a: ApplicationV) -> bool {
    courses_wf(a.courses) && holidays_wf(a.holidays)
}

/// What deserializing promises of its result: a success is exactly the
/// encoding read, and the encoding of any well-formed aggregate decodes to
/// that aggregate.
pub open spec fn deserialize_post(bytes: Seq<u8>, r: Result<Application, DecodeError>) -> bool {
    &&& (r matches Ok(a) ==> bytes == enc_app(a@) && app_wf(a@))
    &&& (forall|m: ApplicationV|
        app_wf(m) && bytes == #[trigger] enc_app(m) ==> (r matches Ok(a) && a@ == m))
}

/// Round trip: the bytes an aggregate serializes to deserialize to that
/// aggregate, lossless in every field.
pub proof fn lemma_round_trip(a: ApplicationV, r: Result<Application, DecodeError>)
    requires
        app_wf(a),
        deserialize_post(enc_app(a), r),
    ensures
        r matches Ok(b) && b@ == a,
{
}

impl Application {
    /// The memory representation of the aggregate: the snapshot that
    /// `deserialize` reads back losslessly.
    pub fn serialize(&self) -> (r: Vec<u8>)
        ensures
            r@ == enc_app(self@),
    {
        proof {
            assert(courses_model(self.courses@) =~= self@.courses);
        }
        let mut out: Vec<u8> = Vec::new();
        write_courses(&mut out, &self.courses);
        write_holidays(&mut out, &self.holidays);
        proof {
            assert(out@ =~= enc_app(self@));
        }
        out
    }

    /// Rebuild an aggregate from snapshot bytes. Succeeds exactly on the
    /// full encoding of a well-formed aggregate, and then returns that
    /// aggregate; anything else is corrupt.
    pub fn deserialize(bytes: &Vec<u8>) -> (r: Result<Application, DecodeError>)
        ensures
            deserialize_post(bytes@, r),
    {
        proof {
            assert forall|m: ApplicationV|
                app_wf(m) && bytes@ == #[trigger] enc_app(m) implies {
                &&& has_enc(bytes@, 0, enc_courses(m.courses))
                &&& has_enc(bytes@, enc_courses(m.courses).len() as int, enc_holidays(m.holidays))
            } by {
                assert(bytes@.subrange(0, bytes@.len() as int) =~= bytes@);
                lemma_has_enc_split(bytes@, 0, enc_courses(m.courses), enc_holidays(m.holidays));
            }
        }
        let (courses, p1) = match read_courses(bytes, 0) {
            Ok(v) => v,
            Err(e) => {
                return Err(e);
            },
        };
        let (holidays, p2) = match read_holidays(bytes, p1) {
            Ok(v) => v,
            Err(e) => {
                return Err(e);
            },
        };
        if p2 != bytes.len() {
            proof {
                assert forall|m: ApplicationV|
                    !(app_wf(m) && bytes@ == #[trigger] enc_app(m)) by {
                    if app_wf(m) && bytes@ == enc_app(m) {
                        assert(p2 == enc_app(m).len());
                    }
                }
            }
            return Err(DecodeError);
        }
        let a = Application { courses, holidays };
        proof {
            assert(courses_model(a.courses@) =~= a@.courses);
            assert(bytes@.subrange(0, p2 as int) =~= bytes@);
            assert(bytes@.subrange(0, p2 as int) =~= bytes@.subrange(0, p1 as int)
                + bytes@.subrange(p1 as int, p2 as int));
            assert(bytes@ == enc_app(a@));
            assert forall|m: ApplicationV|
                app_wf(m) && bytes@ == #[trigger] enc_app(m) implies a@ == m by {
                assert(courses_model(a.courses@) == m.courses);
                assert(a.holidays@ == m.holidays);
            }
        }
        Ok(a)
    }
}

} // verus!
