//! The input: lines of `<station>;<temperature>\n`.
use crate::codec::{
    is_digit, temperature_value, unsigned_part, valid_temperature, DOT, MINUS, NINE, ZERO,
};
use crate::stats::is_reading;
use vstd::prelude::*;

verus! {

pub const NEWLINE: u8 = 10;

pub const SEMICOLON: u8 = 59;

/// Relies on memchr::memchr: the index of the first occurrence of `needle`,
/// or `None` where there is none.
pub assume_specification[ memchr::memchr ](needle: u8, haystack: &[u8]) -> (r: Option<usize>)
    ensures
        match r {
            Some(i) => {
                &&& i < haystack@.len()
                &&& haystack@[i as int] == needle
                &&& forall|j: int| 0 <= j < i ==> haystack@[j] != needle
            },
            None => forall|j: int| 0 <= j < haystack@.len() ==> haystack@[j] != needle,
        },
;

/// Index of the first `c` in `s`, or `s.len()` where there is none.
pub open spec fn find_byte(s: Seq<u8>, c: u8) -> nat
    decreases s.len(),
{
    if s.len() == 0 {
        0
    } else if s[0] == c {
        0
    } else {
        1 + find_byte(s.drop_first(), c)
    }
}

/// The station name and the reading of a line, without its newline.
pub open spec fn row_of(line: Seq<u8>) -> (Seq<u8>, int) {
    let semi = find_byte(line, SEMICOLON) as int;
    (line.take(semi), temperature_value(line.skip(semi + 1)))
}

/// A non-empty name, `;`, and a temperature.
pub open spec fn valid_line(line: Seq<u8>) -> bool {
    let semi = find_byte(line, SEMICOLON) as int;
    &&& 1 <= semi < line.len()
    &&& valid_temperature(line.skip(semi + 1))
}

/// Valid lines, each ended by a newline.
pub open spec fn valid_input(b: Seq<u8>) -> bool
    decreases b.len(),
{
    if b.len() == 0 {
        true
    } else {
        let e = find_byte(b, NEWLINE) as int;
        &&& e < b.len()
        &&& valid_line(b.take(e))
        &&& valid_input(b.skip(e + 1))
    }
}

/// The rows of the input, in order.
pub open spec fn rows_of(b: Seq<u8>) -> Seq<(Seq<u8>, int)>
    decreases b.len(),
{
    if b.len() == 0 {
        Seq::empty()
    } else {
        let e = find_byte(b, NEWLINE) as int;
        if e < b.len() {
            seq![row_of(b.take(e))] + rows_of(b.skip(e + 1))
        } else {
            Seq::empty()
        }
    }
}

pub proof fn lemma_find_byte(s: Seq<u8>, c: u8)
    ensures
        find_byte(s, c) <= s.len(),
        find_byte(s, c) < s.len() ==> s[find_byte(s, c) as int] == c,
        forall|j: int| 0 <= j < find_byte(s, c) ==> s[j] != c,
    decreases s.len(),
{
    if s.len() > 0 && s[0] != c {
        lemma_find_byte(s.drop_first(), c);
        assert forall|j: int| 0 <= j < find_byte(s, c) implies s[j] != c by {
            if j > 0 {
                assert(s[j] == s.drop_first()[j - 1]);
            }
        }
    }
}

/// `i` is where the first `c` stands (or the end, where none does).
pub proof fn lemma_find_byte_at(s: Seq<u8>, c: u8, i: int)
    requires
        0 <= i <= s.len(),
        forall|j: int| 0 <= j < i ==> s[j] != c,
        i == s.len() || s[i] == c,
    ensures
        find_byte(s, c) == i,
{
    lemma_find_byte(s, c);
}

/// A valid input that is not empty ends with a newline.
pub proof fn lemma_valid_ends_with_newline(b: Seq<u8>)
    requires
        valid_input(b),
        b.len() > 0,
    ensures
        b.last() == NEWLINE,
    decreases b.len(),
{
    let e = find_byte(b, NEWLINE) as int;
    lemma_find_byte(b, NEWLINE);
    let rest = b.skip(e + 1);
    if rest.len() > 0 {
        lemma_valid_ends_with_newline(rest);
        assert(rest.last() == b.last());
    }
}

/// The first line of a valid input, with its newline, and what follows it.
pub proof fn lemma_first_line(b: Seq<u8>)
    requires
        valid_input(b),
        b.len() > 0,
    ensures
        ({
            let e = find_byte(b, NEWLINE) as int;
            &&& e < b.len()
            &&& valid_line(b.take(e))
            &&& valid_input(b.take(e + 1))
            &&& rows_of(b.take(e + 1)) == seq![row_of(b.take(e))]
            &&& valid_input(b.skip(e + 1))
            &&& b.take(e + 1) + b.skip(e + 1) == b
            &&& rows_of(b) == rows_of(b.take(e + 1)) + rows_of(b.skip(e + 1))
        }),
{
    let e = find_byte(b, NEWLINE) as int;
    lemma_find_byte(b, NEWLINE);
    let l = b.take(e + 1);
    lemma_find_byte_at(l, NEWLINE, e);
    assert(l.take(e) =~= b.take(e));
    assert(l.skip(e + 1).len() == 0);
    assert(valid_input(l.skip(e + 1)));
    assert(valid_input(l));
    assert(rows_of(l.skip(e + 1)) =~= Seq::<(Seq<u8>, int)>::empty());
    assert(rows_of(l) =~= seq![row_of(b.take(e))]);
    assert(l + b.skip(e + 1) =~= b);
    assert(rows_of(b) =~= rows_of(l) + rows_of(b.skip(e + 1)));
}

/// Valid input followed by more input: its lines come first.
pub proof fn lemma_rows_append(a: Seq<u8>, b: Seq<u8>)
    requires
        valid_input(a),
    ensures
        rows_of(a + b) == rows_of(a) + rows_of(b),
        valid_input(a + b) == valid_input(b),
    decreases a.len(),
{
    if a.len() == 0 {
        assert(a + b =~= b);
        assert(rows_of(a) + rows_of(b) =~= rows_of(b));
    } else {
        let e = find_byte(a, NEWLINE) as int;
        lemma_find_byte(a, NEWLINE);
        let ab = a + b;
        lemma_find_byte_at(ab, NEWLINE, e);
        assert(ab.take(e) =~= a.take(e));
        assert(ab.skip(e + 1) =~= a.skip(e + 1) + b);
        lemma_rows_append(a.skip(e + 1), b);
        assert(rows_of(ab) =~= rows_of(a) + rows_of(b));
    }
}

/// Every reading of a valid input is in range.
pub proof fn lemma_rows_readings(b: Seq<u8>)
    requires
        valid_input(b),
    ensures
        forall|i: int| 0 <= i < rows_of(b).len() ==> is_reading(#[trigger] rows_of(b)[i].1),
    decreases b.len(),
{
    if b.len() > 0 {
        let e = find_byte(b, NEWLINE) as int;
        lemma_first_line(b);
        lemma_rows_readings(b.skip(e + 1));
        let line = b.take(e);
        assert(is_reading(row_of(line).1));
        assert forall|i: int| 0 <= i < rows_of(b).len() implies is_reading(
            #[trigger] rows_of(b)[i].1,
        ) by {
            if i > 0 {
                assert(rows_of(b)[i] == rows_of(b.skip(e + 1))[i - 1]);
            }
        }
    }
}

/// Every line of a valid input takes at least six bytes.
pub proof fn lemma_row_count_bound(b: Seq<u8>)
    requires
        valid_input(b),
    ensures
        6 * rows_of(b).len() <= b.len(),
    decreases b.len(),
{
    if b.len() > 0 {
        let e = find_byte(b, NEWLINE) as int;
        lemma_first_line(b);
        lemma_rows_append(b.take(e + 1), b.skip(e + 1));
        lemma_row_count_bound(b.skip(e + 1));
    }
}

/// A valid input cut after a newline: the part before the cut is valid.
pub proof fn lemma_valid_split(a: Seq<u8>, b: Seq<u8>)
    requires
        valid_input(a + b),
        a.len() == 0 || a.last() == NEWLINE,
    ensures
        valid_input(a),
    decreases a.len(),
{
    if a.len() > 0 {
        lemma_find_byte(a, NEWLINE);
        let f = find_byte(a, NEWLINE) as int;
        assert(f < a.len()) by {
            if f == a.len() {
                assert(a[a.len() - 1] == NEWLINE);
            }
        }
        let ab = a + b;
        lemma_find_byte_at(ab, NEWLINE, f);
        assert(ab.take(f) =~= a.take(f));
        assert(ab.skip(f + 1) =~= a.skip(f + 1) + b);
        let rest = a.skip(f + 1);
        if rest.len() > 0 {
            assert(rest.last() == a.last());
        }
        lemma_valid_split(rest, b);
    }
}

fn is_digit_byte(b: u8) -> (r: bool)
    ensures
        r == is_digit(b),
{
    ZERO <= b && b <= NINE
}

/// Checks a temperature against `-?[0-9]{1,2}\.[0-9]`.
pub fn is_valid_temperature(s: &[u8]) -> (r: bool)
    ensures
        r == valid_temperature(s@),
{
    let start: usize = if s.len() > 0 && s[0] == MINUS {
        1
    } else {
        0
    };
    let ghost u = unsigned_part(s@);
    assert(u =~= s@.skip(start as int));
    let n = s.len() - start;
    if n == 3 {
        is_digit_byte(s[start]) && s[start + 1] == DOT && is_digit_byte(s[start + 2])
    } else if n == 4 {
        is_digit_byte(s[start]) && is_digit_byte(s[start + 1]) && s[start + 2] == DOT
            && is_digit_byte(s[start + 3])
    } else {
        false
    }
}

/// Checks the whole input against the grammar: lines of a non-empty name,
/// `;` and a temperature, each ended by a newline.
pub fn is_valid_input(bytes: &[u8]) -> (r: bool)
    ensures
        r == valid_input(bytes@),
{
    let len = bytes.len();
    let mut pos: usize = 0;
    assert(bytes@.skip(0) =~= bytes@);
    while pos < len
        invariant
            len == bytes@.len(),
            pos <= len,
            valid_input(bytes@) == valid_input(bytes@.skip(pos as int)),
        decreases len - pos,
    {
        let rest = &bytes[pos..len];
        assert(rest@ =~= bytes@.skip(pos as int));
        proof {
            lemma_find_byte(rest@, NEWLINE);
        }
        let e = match memchr::memchr(NEWLINE, rest) {
            Some(e) => e,
            None => {
                proof {
                    lemma_find_byte_at(rest@, NEWLINE, rest@.len() as int);
                }
                return false;
            },
        };
        proof {
            lemma_find_byte_at(rest@, NEWLINE, e as int);
        }
        let line = &rest[0..e];
        assert(line@ =~= rest@.take(e as int));
        let semi = match memchr::memchr(SEMICOLON, line) {
            Some(semi) => semi,
            None => {
                proof {
                    lemma_find_byte_at(line@, SEMICOLON, line@.len() as int);
                }
                return false;
            },
        };
        proof {
            lemma_find_byte_at(line@, SEMICOLON, semi as int);
        }
        if semi == 0 {
            return false;
        }
        let temperature = &line[semi + 1..e];
        assert(temperature@ =~= line@.skip(semi + 1));
        if !is_valid_temperature(temperature) {
            return false;
        }
        assert(rest@.skip(e + 1) =~= bytes@.skip(pos + e + 1));
        pos = pos + e + 1;
    }
    assert(bytes@.skip(len as int).len() == 0);
    true
}

} // verus!
