//! Parsing of a job's textual coding: colon-separated decimal numbers, as in
//! `"256:256:0:0:38"`. Empty fields, as produced by doubled or leading or
//! trailing colons, are skipped; every other field must be all digits and
//! fit a sample value.
use vstd::prelude::*;
use vstd::string::StrSliceExecFns;
use crate::phase_combis::as_ints;

verus! {

/// One row of the job table: the job's identifier and its coding text.
#[derive(Debug)]
pub struct Record {
    pub jobid: u32,
    pub coding: String,
}

pub open spec fn is_digit(c: char) -> bool {
    48 <= c as int <= 57
}

pub open spec fn digit_val(c: char) -> int {
    c as int - 48
}

/// The number a run of decimal digits denotes.
pub open spec fn token_val(t: Seq<char>) -> int
    decreases t.len(),
{
    if t.len() == 0 {
        0
    } else {
        10 * token_val(t.drop_last()) + digit_val(t.last())
    }
}

/// Length of the leading run of non-colon characters.
pub open spec fn field_run_len(s: Seq<char>) -> int
    decreases s.len(),
{
    if s.len() == 0 || s[0] == ':' {
        0
    } else {
        1 + field_run_len(s.drop_first())
    }
}

proof fn lemma_field_run_bounds(s: Seq<char>)
    ensures
        0 <= field_run_len(s) <= s.len(),
        forall|i: int| 0 <= i < field_run_len(s) ==> s[i] != ':',
        field_run_len(s) < s.len() ==> s[field_run_len(s)] == ':',
        s.len() > 0 && s[0] != ':' ==> field_run_len(s) >= 1,
    decreases s.len(),
{
    if s.len() == 0 || s[0] == ':' {
    } else {
        lemma_field_run_bounds(s.drop_first());
        assert forall|i: int| 0 <= i < field_run_len(s) implies s[i] != ':' by {
            if i > 0 {
                assert(s.drop_first()[i - 1] != ':');
            }
        }
    }
}

proof fn lemma_field_run_is(s: Seq<char>, k: int)
    requires
        0 <= k <= s.len(),
        forall|i: int| 0 <= i < k ==> s[i] != ':',
        k == s.len() || s[k] == ':',
    ensures
        field_run_len(s) == k,
    decreases k,
{
    if k == 0 {
    } else {
        assert(s[0] != ':');
        lemma_field_run_is(s.drop_first(), k - 1);
    }
}

/// The non-empty colon-free fields of the text, left to right.
pub open spec fn spec_fields(s: Seq<char>) -> Seq<Seq<char>>
    decreases s.len(),
    via spec_fields_dec
{
    if s.len() == 0 {
        Seq::<Seq<char>>::empty()
    } else if s[0] == ':' {
        spec_fields(s.drop_first())
    } else {
        seq![s.take(field_run_len(s))] + spec_fields(s.skip(field_run_len(s)))
    }
}

#[via_fn]
proof fn spec_fields_dec(s: Seq<char>) {
    if s.len() != 0 && s[0] != ':' {
        lemma_field_run_bounds(s);
    }
}

/// The numbers the text denotes: one per non-empty field, in order.
pub open spec fn spec_coding(s: Seq<char>) -> Seq<int> {
    spec_fields(s).map_values(|t: Seq<char>| token_val(t))
}

/// The text is well-formed: digits and colons only, and no field denotes a
/// number too large for a sample value.
pub open spec fn coding_ok(s: Seq<char>) -> bool {
    &&& forall|i: int| 0 <= i < s.len() ==> s[i] == ':' || is_digit(s[i])
    &&& forall|k: int|
        0 <= k < spec_fields(s).len() ==> token_val(#[trigger] spec_fields(s)[k]) <= u16::MAX
}

/// Reads a coding text, if it is well-formed: `Some` of the series of its
/// sample values exactly when the text holds digits and colons only and
/// every non-empty field fits a sample value, `None` otherwise.
pub fn try_convert_to_coding(s: &str) -> (r: Option<Vec<u16>>)
    ensures
        r is Some <==> coding_ok(s@),
        r matches Some(v) ==> as_ints(v@) == spec_coding(s@),
{
    let n: usize = s.unicode_len();
    let mut r: Vec<u16> = Vec::new();
    let mut i: usize = 0;
    proof {
        assert(s@.subrange(0, n as int) =~= s@);
        assert(spec_fields(s@).skip(0) =~= spec_fields(s@));
        assert(as_ints(Seq::<u16>::empty()) =~= Seq::<int>::empty());
        assert(spec_coding(s@).take(0) =~= Seq::<int>::empty());
    }
    while i < n
        invariant
            n == s@.len(),
            i <= n,
            forall|t: int| 0 <= t < i ==> s@[t] == ':' || is_digit(#[trigger] s@[t]),
            r@.len() <= spec_fields(s@).len(),
            as_ints(r@) == spec_coding(s@).take(r@.len() as int),
            spec_fields(s@.subrange(i as int, n as int)) == spec_fields(s@).skip(r@.len() as int),
        decreases n - i,
    {
        let c = s.get_char(i);
        if c == ':' {
            proof {
                assert(s@.subrange(i as int, n as int).drop_first() =~= s@.subrange(
                    i as int + 1,
                    n as int,
                ));
            }
            i += 1;
        } else {
            let ghost k = r@.len() as int;
            let ghost rest = s@.subrange(i as int, n as int);
            let ghost rl = field_run_len(rest);
            let ghost fld = rest.take(rl);
            proof {
                lemma_field_run_bounds(rest);
                assert(spec_fields(rest) == seq![fld] + spec_fields(rest.skip(rl)));
                assert(spec_fields(rest).len() >= 1);
                assert(spec_fields(s@).skip(k)[0] == spec_fields(s@)[k]);
                assert(spec_fields(s@)[k] == fld);
            }
            let start: usize = i;
            let mut cur: u32 = 0;
            proof {
                assert(s@.subrange(start as int, start as int) =~= Seq::<char>::empty());
            }
            while i < n && s.get_char(i) != ':'
                invariant
                    n == s@.len(),
                    start <= i <= n,
                    rest == s@.subrange(start as int, n as int),
                    rl == field_run_len(rest),
                    fld == rest.take(rl),
                    k == r@.len() as int,
                    forall|t: int| 0 <= t < i ==> s@[t] == ':' || is_digit(#[trigger] s@[t]),
                    forall|t: int| start <= t < i ==> s@[t] != ':',
                    (token_val(s@.subrange(start as int, i as int)) <= 65535 && cur as int
                        == token_val(s@.subrange(start as int, i as int))) || (token_val(
                        s@.subrange(start as int, i as int),
                    ) > 65535 && cur == 65536),
                decreases n - i,
            {
                let c2 = s.get_char(i);
                let u: u32 = c2 as u32;
                if u < 48 || u > 57 {
                    proof {
                        assert(s@[i as int] == c2);
                        assert(!(s@[i as int] == ':' || is_digit(s@[i as int])));
                        assert(!coding_ok(s@));
                    }
                    return None;
                }
                proof {
                    assert(is_digit(c2));
                    assert(s@.subrange(start as int, i as int + 1).drop_last() =~= s@.subrange(
                        start as int,
                        i as int,
                    ));
                    assert(s@.subrange(start as int, i as int + 1).last() == s@[i as int]);
                    assert(token_val(s@.subrange(start as int, i as int + 1)) == 10 * token_val(
                        s@.subrange(start as int, i as int),
                    ) + digit_val(c2));
                }
                let d: u32 = u - 48;
                if cur <= 65535 {
                    let nxt: u32 = cur * 10 + d;
                    if nxt > 65535 {
                        cur = 65536;
                    } else {
                        cur = nxt;
                    }
                }
                i += 1;
            }
            proof {
                assert forall|t: int| 0 <= t < i - start implies rest[t] != ':' by {
                    assert(rest[t] == s@[start + t]);
                }
                if i < n {
                    assert(rest[i - start] == s@[i as int]);
                }
                lemma_field_run_is(rest, i - start);
                assert(fld =~= s@.subrange(start as int, i as int));
            }
            if cur > 65535 {
                proof {
                    assert(token_val(fld) > u16::MAX);
                    assert(!(token_val(spec_fields(s@)[k]) <= u16::MAX));
                    assert(!coding_ok(s@));
                }
                return None;
            }
            let v: u16 = cur as u16;
            proof {
                assert(rest.skip(rl) =~= s@.subrange(i as int, n as int));
                assert(spec_fields(rest) == seq![fld] + spec_fields(rest.skip(rl)));
                assert(spec_fields(s@.subrange(i as int, n as int)) =~= spec_fields(s@).skip(
                    k + 1,
                )) by {
                    assert(spec_fields(rest) == spec_fields(s@).skip(k));
                    assert forall|j: int|
                        0 <= j < spec_fields(s@).len() - k - 1 implies spec_fields(s@).skip(k + 1)[j]
                        == spec_fields(rest.skip(rl))[j] by {
                        assert(spec_fields(s@).skip(k)[j + 1] == spec_fields(s@)[k + 1 + j]);
                    }
                }
                assert(v as int == token_val(fld));
                assert(as_ints(r@.push(v)) =~= as_ints(r@).push(v as int));
                assert(spec_coding(s@)[k] == token_val(spec_fields(s@)[k]));
                assert(spec_coding(s@).take(k + 1) =~= spec_coding(s@).take(k).push(
                    spec_coding(s@)[k],
                ));
            }
            r.push(v);
        }
    }
    proof {
        assert(s@.subrange(n as int, n as int) =~= Seq::<char>::empty());
        assert(spec_fields(Seq::<char>::empty()) =~= Seq::<Seq<char>>::empty());
        assert(spec_fields(s@).skip(r@.len() as int).len() == 0);
        assert(r@.len() == spec_fields(s@).len());
        assert(spec_coding(s@).take(r@.len() as int) =~= spec_coding(s@));
        assert forall|k: int|
            0 <= k < spec_fields(s@).len() implies token_val(#[trigger] spec_fields(s@)[k])
            <= u16::MAX by {
            assert(spec_coding(s@)[k] == token_val(spec_fields(s@)[k]));
            assert(as_ints(r@)[k] == r@[k] as int);
        }
        assert(coding_ok(s@));
    }
    Some(r)
}

/// Turns a well-formed coding text into the series of its sample values.
/// Skips empty fields; each remaining field is read as a decimal number.
pub fn convert_to_coding(coding: String) -> (r: Vec<u16>)
    requires
        coding_ok(coding@),
    ensures
        as_ints(r@) == spec_coding(coding@),
{
    match try_convert_to_coding(coding.as_str()) {
        Some(v) => v,
        None => {
            proof {
                assert(false);
            }
            Vec::new()
        },
    }
}

} // verus!
