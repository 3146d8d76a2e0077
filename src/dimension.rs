//! Dimension resolution: an explicit `"rows,cols"` declaration, or the
//! counts measured again from the source.
use vstd::prelude::*;
use vstd::string::*;

use crate::codec::{csv_records, read_records};
use crate::table::{first_row_len, CSVData, TableError};

verus! {

pub open spec fn is_digit(c: char) -> bool {
    '0' <= c <= '9'
}

pub open spec fn all_digits(s: Seq<char>) -> bool {
    forall|i: int| 0 <= i < s.len() ==> is_digit(#[trigger] s[i])
}

/// The value of a string of decimal digits.
pub open spec fn digits_value(s: Seq<char>) -> int
    decreases s.len(),
{
    if s.len() == 0 {
        0
    } else {
        digits_value(s.drop_last()) * 10 + ((s.last() as u32) as int - ('0' as u32) as int)
    }
}

/// The `usize` that `s` denotes, as the standard library parses one: an
/// optional `+`, then at least one decimal digit, the value within range.
pub open spec fn number_of(s: Seq<char>) -> Option<int> {
    let d = if s.len() > 0 && s[0] == '+' {
        s.drop_first()
    } else {
        s
    };
    if d.len() > 0 && all_digits(d) && digits_value(d) <= usize::MAX {
        Some(digits_value(d))
    } else {
        None
    }
}

/// `k` is the position of the one comma in `s`.
pub open spec fn sole_comma(s: Seq<char>, k: int) -> bool {
    &&& 0 <= k < s.len()
    &&& s[k] == ','
    &&& forall|j: int| 0 <= j < s.len() && j != k ==> #[trigger] s[j] != ','
}

/// The `(rows, cols)` pair of a declaration: exactly two comma-separated
/// parts, each a number; `None` for anything else.
pub open spec fn dimension_of(s: Seq<char>) -> Option<(int, int)> {
    if exists|k: int| sole_comma(s, k) {
        let k = choose|k: int| sole_comma(s, k);
        match (number_of(s.subrange(0, k)), number_of(s.subrange(k + 1, s.len() as int))) {
            (Some(a), Some(b)) => Some((a, b)),
            _ => None,
        }
    } else {
        None
    }
}

/// The pair that an optional declaration supplies, if it is well-formed.
pub open spec fn declared(declaration: Option<&str>) -> Option<(int, int)> {
    match declaration {
        Some(d) => dimension_of(d@),
        None => None,
    }
}

proof fn lemma_sole_comma_unique(s: Seq<char>, k: int, m: int)
    requires
        sole_comma(s, k),
        sole_comma(s, m),
    ensures
        k == m,
{
    if k != m {
        assert(s[m] != ',');
    }
}

/// The number in `s[from..to]`, if it is one.
fn parse_number(s: &str, from: usize, to: usize) -> (r: Option<usize>)
    requires
        from <= to <= s@.len(),
    ensures
        match number_of(s@.subrange(from as int, to as int)) {
            Some(v) => r matches Some(x) && x == v,
            None => r is None,
        },
{
    let ghost sub = s@.subrange(from as int, to as int);
    let mut start: usize = from;
    if start < to && s.get_char(start) == '+' {
        start = start + 1;
    }
    let ghost d = s@.subrange(start as int, to as int);
    assert(d =~= if sub.len() > 0 && sub[0] == '+' {
        sub.drop_first()
    } else {
        sub
    });
    if start == to {
        return None;
    }
    let mut i: usize = start;
    while i < to
        invariant
            start <= i <= to <= s@.len(),
            sub == s@.subrange(from as int, to as int),
            d == s@.subrange(start as int, to as int),
            d == (if sub.len() > 0 && sub[0] == '+' {
                sub.drop_first()
            } else {
                sub
            }),
            forall|k: int| start <= k < i ==> is_digit(#[trigger] s@[k]),
        decreases to - i,
    {
        let c = s.get_char(i);
        if c < '0' || c > '9' {
            assert(!is_digit(d[i - start]));
            assert(!(forall|k: int| 0 <= k < d.len() ==> is_digit(#[trigger] d[k])));
            return None;
        }
        i = i + 1;
    }
    assert forall|k: int| 0 <= k < d.len() implies is_digit(#[trigger] d[k]) by {
        assert(d[k] == s@[start + k]);
    }
    let mut acc: usize = 0;
    i = start;
    while i < to
        invariant
            start <= i <= to <= s@.len(),
            sub == s@.subrange(from as int, to as int),
            d == s@.subrange(start as int, to as int),
            d == (if sub.len() > 0 && sub[0] == '+' {
                sub.drop_first()
            } else {
                sub
            }),
            forall|k: int| 0 <= k < d.len() ==> is_digit(#[trigger] d[k]),
            acc as int == digits_value(s@.subrange(start as int, i as int)),
        decreases to - i,
    {
        let c = s.get_char(i);
        assert(c == d[i - start]);
        let digit = (c as u32 - '0' as u32) as usize;
        let ghost pre = s@.subrange(start as int, i + 1);
        assert(pre.drop_last() =~= s@.subrange(start as int, i as int));
        proof {
            lemma_digits_value_prefix(d, i - start + 1);
            assert(pre =~= d.subrange(0, i - start + 1));
        }
        match acc.checked_mul(10) {
            Some(m) => match m.checked_add(digit) {
                Some(v) => {
                    acc = v;
                },
                None => {
                    return None;
                },
            },
            None => {
                proof {
                    lemma_digits_value_nonneg(s@.subrange(start as int, i as int));
                }
                return None;
            },
        }
        i = i + 1;
    }
    assert(s@.subrange(start as int, i as int) =~= d);
    Some(acc)
}

proof fn lemma_digits_value_nonneg(s: Seq<char>)
    requires
        forall|k: int| 0 <= k < s.len() ==> is_digit(#[trigger] s[k]),
    ensures
        digits_value(s) >= 0,
    decreases s.len(),
{
    if s.len() > 0 {
        lemma_digits_value_nonneg(s.drop_last());
    }
}

/// A prefix of a digit string denotes no more than the whole.
proof fn lemma_digits_value_prefix(s: Seq<char>, n: int)
    requires
        0 <= n <= s.len(),
        forall|k: int| 0 <= k < s.len() ==> is_digit(#[trigger] s[k]),
    ensures
        digits_value(s.subrange(0, n)) <= digits_value(s),
    decreases s.len(),
{
    if n < s.len() {
        let t = s.drop_last();
        assert(t.subrange(0, n) =~= s.subrange(0, n));
        lemma_digits_value_prefix(t, n);
        lemma_digits_value_nonneg(t);
    } else {
        assert(s.subrange(0, n) =~= s);
    }
}

/// Parses a `"rows,cols"` declaration: two parts separated by the one comma,
/// each an optional `+` and decimal digits that fit a `usize`. Anything else
/// gives `None`.
pub fn parse_dimension(declaration: &str) -> (r: Option<(usize, usize)>)
    ensures
        match dimension_of(declaration@) {
            Some((a, b)) => r matches Some((x, y)) && x == a && y == b,
            None => r is None,
        },
{
    let n = declaration.unicode_len();
    let mut k: usize = 0;
    while k < n && declaration.get_char(k) != ','
        invariant
            k <= n == declaration@.len(),
            forall|j: int| 0 <= j < k ==> #[trigger] declaration@[j] != ',',
        decreases n - k,
    {
        k = k + 1;
    }
    if k == n {
        return None;
    }
    let mut j: usize = k + 1;
    while j < n
        invariant
            k < j <= n == declaration@.len(),
            declaration@[k as int] == ',',
            forall|i: int| 0 <= i < j && i != k ==> #[trigger] declaration@[i] != ',',
        decreases n - j,
    {
        if declaration.get_char(j) == ',' {
            assert(!sole_comma(declaration@, k as int));
            assert forall|m: int| !sole_comma(declaration@, m) by {
                if sole_comma(declaration@, m) {
                    assert(declaration@[k as int] != ',' || declaration@[j as int] != ',');
                }
            }
            return None;
        }
        j = j + 1;
    }
    assert(sole_comma(declaration@, k as int));
    proof {
        let c = choose|m: int| sole_comma(declaration@, m);
        lemma_sole_comma_unique(declaration@, k as int, c);
    }
    let rows = parse_number(declaration, 0, k);
    let cols = parse_number(declaration, k + 1, n);
    match (rows, cols) {
        (Some(a), Some(b)) => Some((a, b)),
        _ => None,
    }
}

/// The `(rows, cols)` of a source measured afresh: the number of records
/// and the length of the first (zero without records). Fails with
/// `SourceUnreadable` exactly where the codec does not accept the text.
pub fn get_dimensions(source: &[u8]) -> (r: Result<(usize, usize), TableError>)
    ensures
        match csv_records(source@) {
            Some(rows) => r matches Ok((a, b)) && a == rows.len() && b == first_row_len(rows),
            None => r == Err::<(usize, usize), TableError>(TableError::SourceUnreadable),
        },
{
    match read_records(source) {
        Ok(rows) => {
            let cols: usize = if rows.len() == 0 {
                0
            } else {
                rows[0].len()
            };
            Ok((rows.len(), cols))
        },
        Err(_) => Err(TableError::SourceUnreadable),
    }
}

impl CSVData {
    /// Sets `records` and `fields`: to the declared pair where `declaration`
    /// is a well-formed one, with no check against the stored rows; else to
    /// the counts measured from `source` (see `get_dimensions`). Only a
    /// source that cannot be read fails, with `SourceUnreadable`, and then
    /// nothing changes. Rows, pages and provenance are kept.
    pub fn resolve_dimensions(&mut self, declaration: Option<&str>, source: &[u8]) -> (r: Result<
        (),
        TableError,
    >)
        ensures
            final(self).data == old(self).data,
            final(self).pages == old(self).pages,
            final(self).file_name == old(self).file_name,
            final(self).creation_date == old(self).creation_date,
            final(self).last_modified_date == old(self).last_modified_date,
            final(self).file_size == old(self).file_size,
            match declared(declaration) {
                Some((a, b)) => r is Ok && final(self).records == a && final(self).fields == b,
                None => match csv_records(source@) {
                    Some(rows) => {
                        &&& r is Ok
                        &&& final(self).records == rows.len()
                        &&& final(self).fields == first_row_len(rows)
                    },
                    None => {
                        &&& r == Err::<(), TableError>(TableError::SourceUnreadable)
                        &&& *final(self) == *old(self)
                    },
                },
            },
    {
        let parsed = match declaration {
            Some(d) => parse_dimension(d),
            None => None,
        };
        match parsed {
            Some((rows, cols)) => {
                self.records = rows;
                self.fields = cols;
                Ok(())
            },
            None => {
                match get_dimensions(source) {
                    Ok((rows, cols)) => {
                        self.records = rows;
                        self.fields = cols;
                        Ok(())
                    },
                    Err(e) => Err(e),
                }
            },
        }
    }
}

} // verus!
