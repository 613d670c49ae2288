//! The entry parser: one line of text becomes one [`IndexEntry`], or an
//! [`IxError`] saying why it could not.
//!
//! A line has the shape `<byte_offset>:<article_id>:<title>`. Only the
//! first two `:` act as delimiters; the title is everything after the
//! second one and may itself contain `:`.
use vstd::prelude::*;

use crate::EntryV;
use crate::IxError;

verus! {

/// One parsed index line: where the article sits in the dump, its
/// identifier, and its title.
///
/// The identifier is kept as text because source data may hold
/// non-numeric or non-canonical identifiers; the title may contain the
/// line delimiter `:` freely.
#[derive(Debug)]
pub struct IndexEntry {
    /// The byte offset, e.g. `569`.
    pub byte_offset: u64,
    /// The article id (conventionally numeric), e.g. `10`.
    pub article_id: String,
    /// The title, which can contain the separator, e.g. `"The Movie 3: Sub"`.
    pub title: String,
}

impl View for IndexEntry {
    type V = EntryV;

    open spec fn view(&self) -> EntryV {
        EntryV {
            byte_offset: self.byte_offset,
            article_id: self.article_id@,
            title: self.title@,
        }
    }
}

/// A decimal digit.
pub open spec fn is_digit(c: char) -> bool {
    48 <= c as u32 <= 57
}

/// The value of one digit; zero for anything that is not a digit.
pub open spec fn digit_val(c: char) -> nat {
    if is_digit(c) {
        (c as u32 - 48) as nat
    } else {
        0
    }
}

/// Every character of `s` is a decimal digit.
pub open spec fn all_digits(s: Seq<char>) -> bool {
    forall|i: int| 0 <= i < s.len() ==> is_digit(s[i])
}

/// The number denoted by a digit sequence, most significant digit first.
pub open spec fn digits_val(s: Seq<char>) -> nat
    decreases s.len(),
{
    if s.len() == 0 {
        0
    } else {
        digits_val(s.drop_last()) * 10 + digit_val(s.last())
    }
}

/// The digits of an offset field: one optional leading `+` sign is
/// allowed (as Rust's own `u64` parsing allows it) and carries no value.
pub open spec fn offset_digits(s: Seq<char>) -> Seq<char> {
    if s.len() > 0 && s[0] == '+' {
        s.drop_first()
    } else {
        s
    }
}

/// `s` is a well-formed byte offset: after the optional sign, non-empty,
/// all digits, and its value fits in a `u64`.
pub open spec fn offset_ok(s: Seq<char>) -> bool {
    let d = offset_digits(s);
    &&& d.len() > 0
    &&& all_digits(d)
    &&& digits_val(d) <= u64::MAX
}

/// The index of the first `:` in `s`, or `-1` if there is none.
pub open spec fn first_colon(s: Seq<char>) -> int
    decreases s.len(),
{
    if s.len() == 0 {
        -1
    } else if s[0] == ':' {
        0
    } else if first_colon(s.drop_first()) < 0 {
        -1
    } else {
        1 + first_colon(s.drop_first())
    }
}

/// What parsing one line yields: split at the first two `:`, require the
/// first part to be a decimal `u64`, keep the second verbatim, and take
/// the rest of the line as the title.
///
/// With no delimiter the article id is missing; with one the title is
/// missing; those are reported before the offset is examined.
pub open spec fn parse_line_spec(s: Seq<char>) -> Result<EntryV, IxError> {
    let i = first_colon(s);
    if i < 0 {
        Err(IxError::MissingArticleId)
    } else {
        let rest = s.skip(i + 1);
        let j = first_colon(rest);
        if j < 0 {
            Err(IxError::MissingTitle)
        } else {
            let off = s.take(i);
            if offset_ok(off) {
                Ok(
                    EntryV {
                        byte_offset: digits_val(offset_digits(off)) as u64,
                        article_id: rest.take(j),
                        title: rest.skip(j + 1),
                    },
                )
            } else {
                Err(IxError::BadByteOffset)
            }
        }
    }
}

/// A parse result, with the entry replaced by its mathematical image.
pub open spec fn parse_result_view(r: Result<IndexEntry, IxError>) -> Result<EntryV, IxError> {
    match r {
        Ok(e) => Ok(e@),
        Err(x) => Err(x),
    }
}

/// If no `:` stands before position `k` and one stands at `k`, then `k`
/// is the first colon.
proof fn lemma_first_colon_at(s: Seq<char>, k: int)
    requires
        0 <= k < s.len(),
        s[k] == ':',
        forall|m: int| 0 <= m < k ==> s[m] != ':',
    ensures
        first_colon(s) == k,
    decreases k,
{
    if k > 0 {
        lemma_first_colon_at(s.drop_first(), k - 1);
    }
}

/// A sequence without `:` has no first colon.
proof fn lemma_first_colon_none(s: Seq<char>)
    requires
        forall|m: int| 0 <= m < s.len() ==> s[m] != ':',
    ensures
        first_colon(s) == -1,
    decreases s.len(),
{
    if s.len() > 0 {
        lemma_first_colon_none(s.drop_first());
    }
}

/// Appending digits never shrinks the denoted value.
proof fn lemma_digits_val_prefix(s: Seq<char>, k: int)
    requires
        0 <= k <= s.len(),
    ensures
        digits_val(s.take(k)) <= digits_val(s),
    decreases s.len() - k,
{
    if k < s.len() {
        assert(s.take(k + 1).drop_last() =~= s.take(k));
        assert(digits_val(s.take(k)) <= digits_val(s.take(k + 1)));
        lemma_digits_val_prefix(s, k + 1);
    } else {
        assert(s.take(k) =~= s);
    }
}

/// The first `:` at or after `from`, scanning character by character.
fn find_colon(s: &str, from: usize, n: usize) -> (r: Option<usize>)
    requires
        n == s@.len(),
        from <= n,
    ensures
        match r {
            Some(i) => {
                &&& from <= i < n
                &&& s@[i as int] == ':'
                &&& forall|m: int| from <= m < i ==> s@[m] != ':'
            },
            None => forall|m: int| from <= m < n ==> s@[m] != ':',
        },
{
    let mut i: usize = from;
    while i < n
        invariant
            from <= i <= n,
            n == s@.len(),
            forall|m: int| from <= m < i ==> s@[m] != ':',
        decreases n - i,
    {
        if s.get_char(i) == ':' {
            return Some(i);
        }
        i = i + 1;
    }
    None
}

/// The value of the offset field `s[0..end]` (an optional `+` sign,
/// then digits), or `None` when that field is not a well-formed `u64`
/// offset.
#[verifier::loop_isolation(false)]
fn parse_u64_digits(s: &str, end: usize) -> (r: Option<u64>)
    requires
        end <= s@.len(),
    ensures
        match r {
            Some(v) => offset_ok(s@.take(end as int)) && v == digits_val(
                offset_digits(s@.take(end as int)),
            ),
            None => !offset_ok(s@.take(end as int)),
        },
{
    let ghost field = s@.take(end as int);
    let start: usize = if end > 0 && s.get_char(0) == '+' {
        1
    } else {
        0
    };
    let ghost digs = s@.subrange(start as int, end as int);
    proof {
        assert(offset_digits(field) =~= digs);
    }
    if end == start {
        return None;
    }
    let mut val: u64 = 0;
    let mut k: usize = start;
    while k < end
        invariant
            start <= k <= end,
            forall|m: int| start <= m < k ==> is_digit(s@[m]),
            val == digits_val(s@.subrange(start as int, k as int)),
        decreases end - k,
    {
        let c = s.get_char(k);
        let u = c as u32;
        if u < 48 || u > 57 {
            proof {
                assert(!is_digit(s@[k as int]));
                assert(digs[k - start] == s@[k as int]);
            }
            return None;
        }
        let d = (u - 48) as u64;
        proof {
            assert(s@.subrange(start as int, k + 1).drop_last() =~= s@.subrange(
                start as int,
                k as int,
            ));
            assert(digits_val(s@.subrange(start as int, k + 1)) == digits_val(
                s@.subrange(start as int, k as int),
            ) * 10 + d);
        }
        val = match val.checked_mul(10) {
            Some(t) => match t.checked_add(d) {
                Some(v2) => v2,
                None => {
                    proof {
                        lemma_digits_val_prefix(digs, k + 1 - start);
                        assert(digs.take(k + 1 - start) =~= s@.subrange(start as int, k + 1));
                    }
                    return None;
                },
            },
            None => {
                proof {
                    lemma_digits_val_prefix(digs, k + 1 - start);
                    assert(digs.take(k + 1 - start) =~= s@.subrange(start as int, k + 1));
                }
                return None;
            },
        };
        k = k + 1;
    }
    proof {
        assert(digs =~= s@.subrange(start as int, k as int));
        assert(forall|m: int| 0 <= m < digs.len() ==> digs[m] == s@[m + start]);
    }
    Some(val)
}

impl IndexEntry {
    /// Relies on arrow's `Schema::new` and `Field::new`: builds the
    /// fixed three-field schema -- `byte_offset` (unsigned 64-bit),
    /// `article_id` (text), `title` (text), all non-nullable, in that
    /// order -- that every batch and the output file share.
    #[verifier::external_body]
    pub fn schema() -> arrow::datatypes::Schema {
        arrow::datatypes::Schema::new(
            vec![
                arrow::datatypes::Field::new(
                    "byte_offset",
                    arrow::datatypes::DataType::UInt64,
                    false,
                ),
                arrow::datatypes::Field::new("article_id", arrow::datatypes::DataType::Utf8, false),
                arrow::datatypes::Field::new("title", arrow::datatypes::DataType::Utf8, false),
            ],
        )
    }

    /// Parses one line (without its trailing newline) into an entry, or
    /// reports exactly why it is malformed.
    pub fn from_str(s: &str) -> (r: Result<IndexEntry, IxError>)
        ensures
            parse_result_view(r) == parse_line_spec(s@),
    {
        let n = s.unicode_len();
        let i = match find_colon(s, 0, n) {
            Some(i) => i,
            None => {
                proof {
                    lemma_first_colon_none(s@);
                }
                return Err(IxError::MissingArticleId);
            },
        };
        proof {
            lemma_first_colon_at(s@, i as int);
        }
        let ghost rest = s@.skip(i + 1);
        let j = match find_colon(s, i + 1, n) {
            Some(j) => j,
            None => {
                proof {
                    assert(forall|m: int|
                        0 <= m < rest.len() ==> rest[m] == s@[m + i + 1] && rest[m] != ':');
                    lemma_first_colon_none(rest);
                }
                return Err(IxError::MissingTitle);
            },
        };
        proof {
            assert(rest[j - i - 1] == ':');
            assert(forall|m: int| 0 <= m < j - i - 1 ==> rest[m] == s@[m + i + 1] && rest[m] != ':');
            lemma_first_colon_at(rest, j - i - 1);
        }
        let v = match parse_u64_digits(s, i) {
            Some(v) => v,
            None => {
                return Err(IxError::BadByteOffset);
            },
        };
        let article_id = s.substring_char(i + 1, j).to_owned();
        let title = s.substring_char(j + 1, n).to_owned();
        proof {
            assert(article_id@ =~= rest.take(j - i - 1));
            assert(title@ =~= rest.skip(j - i));
        }
        Ok(IndexEntry { byte_offset: v, article_id, title })
    }
}

/// Law: a line composed as `"{offset}:{id}:{title}"`, where the offset is
/// a well-formed `u64` and the id holds no `:`, parses to exactly those
/// three fields, however many `:` the title itself holds.
pub proof fn lemma_parse_valid_line(off: Seq<char>, id: Seq<char>, title: Seq<char>)
    requires
        offset_ok(off),
        forall|m: int| 0 <= m < id.len() ==> id[m] != ':',
    ensures
        parse_line_spec(off + seq![':'] + id + seq![':'] + title) == Ok::<EntryV, IxError>(
            EntryV {
                byte_offset: digits_val(offset_digits(off)) as u64,
                article_id: id,
                title: title,
            },
        ),
{
    let s = off + seq![':'] + id + seq![':'] + title;
    assert forall|m: int| 0 <= m < off.len() implies s[m] != ':' by {
        assert(s[m] == off[m]);
        if off[0] == '+' {
            if m > 0 {
                assert(off[m] == offset_digits(off)[m - 1]);
                assert(is_digit(offset_digits(off)[m - 1]));
            }
        } else {
            assert(off[m] == offset_digits(off)[m]);
            assert(is_digit(offset_digits(off)[m]));
        }
    }
    assert(s[off.len() as int] == ':');
    lemma_first_colon_at(s, off.len() as int);
    let rest = s.skip(off.len() as int + 1);
    assert(rest =~= id + seq![':'] + title);
    assert forall|m: int| 0 <= m < id.len() implies rest[m] != ':' by {
        assert(rest[m] == id[m]);
    }
    assert(rest[id.len() as int] == ':');
    lemma_first_colon_at(rest, id.len() as int);
    assert(s.take(off.len() as int) =~= off);
    assert(rest.take(id.len() as int) =~= id);
    assert(rest.skip(id.len() as int + 1) =~= title);
}

/// The item-wise image of one read line under parsing: a read failure is
/// passed through; a line is parsed.
pub open spec fn line_item_spec(item: Result<String, IxError>) -> Result<EntryV, IxError> {
    match item {
        Ok(line) => parse_line_spec(line@),
        Err(e) => Err(e),
    }
}

/// Parses a sequence of read lines, one to one and in order: the
/// `i`-th result is exactly the parse of the `i`-th line, and a line that
/// failed to read passes its error through.
pub fn lines2entries(lines: Vec<Result<String, IxError>>) -> (r: Vec<
    Result<IndexEntry, IxError>,
>)
    ensures
        r@.len() == lines@.len(),
        forall|k: int|
            0 <= k < lines@.len() ==> parse_result_view(r@[k]) == line_item_spec(lines@[k]),
{
    let ghost all = lines@;
    let mut rest = lines;
    let mut out: Vec<Result<IndexEntry, IxError>> = Vec::new();
    while rest.len() > 0
        invariant
            out@.len() + rest@.len() == all.len(),
            rest@ =~= all.skip(out@.len() as int),
            forall|k: int| 0 <= k < out@.len() ==> parse_result_view(out@[k]) == line_item_spec(all[k]),
        decreases rest@.len(),
    {
        let item = rest.remove(0);
        proof {
            assert(item == all[out@.len() as int]);
        }
        match item {
            Ok(line) => {
                let parsed = IndexEntry::from_str(line.as_str());
                out.push(parsed);
            },
            Err(e) => {
                out.push(Err(e));
            },
        }
    }
    out
}

} // verus!
