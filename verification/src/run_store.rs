//! The run store: `<project>/.nexis-ml/runs/<run-id>/` with `config.json`,
//! `metrics.jsonl`, `summary.json`, `checkpoints/` and `artifacts/`. Paths are
//! lists of names below the project directory.
use vstd::prelude::*;
use vstd::string::StringExecFns;

use crate::calendar;
use crate::calendar::{civil_from_days, floor_div};
use crate::json;
use crate::paths;
use crate::protocol;
use crate::text;

verus! {

// ---------------------------------------------------------------------------
// Slugs.
// ---------------------------------------------------------------------------

pub open spec fn is_alphanumeric(c: char) -> bool {
    ('a' <= c <= 'z') || ('A' <= c <= 'Z') || ('0' <= c <= '9')
}

/// The longest runs of ASCII letters and digits of a text, in order.
pub open spec fn words(s: Seq<char>) -> Seq<Seq<char>>
    decreases s.len(),
{
    if s.len() == 0 {
        Seq::empty()
    } else {
        let before = words(s.drop_last());
        if !is_alphanumeric(s.last()) {
            before
        } else if s.len() >= 2 && is_alphanumeric(s[s.len() - 2]) {
            before.drop_last().push(before.last().push(s.last()))
        } else {
            before.push(seq![s.last()])
        }
    }
}

/// The words of a text with a dash between them, or `run` where there is none.
pub open spec fn slug(s: Seq<char>) -> Seq<char> {
    if words(s).len() == 0 {
        "run"@
    } else {
        text::join(words(s), "-"@)
    }
}

fn alphanumeric(c: char) -> (r: bool)
    ensures
        r == is_alphanumeric(c),
{
    ('a' <= c && c <= 'z') || ('A' <= c && c <= 'Z') || ('0' <= c && c <= '9')
}

proof fn lemma_words(s: Seq<char>)
    ensures
        s.len() > 0 && is_alphanumeric(s.last()) ==> words(s).len() > 0,
        forall|i: int| 0 <= i < words(s).len() ==> (#[trigger] words(s)[i]).len() > 0,
        forall|i: int, j: int|
            0 <= i < words(s).len() && 0 <= j < words(s)[i].len() ==> is_alphanumeric(
                #[trigger] words(s)[i][j],
            ),
    decreases s.len(),
{
    if s.len() > 0 {
        lemma_words(s.drop_last());
        if s.len() >= 2 {
            assert(s.drop_last().last() == s[s.len() - 2]);
        }
        let before = words(s.drop_last());
        let now = words(s);
        assert forall|i: int| 0 <= i < now.len() implies (#[trigger] now[i]).len() > 0 by {
            if i < before.len() {
                assert(before[i].len() > 0);
            }
        }
        assert forall|i: int, j: int|
            0 <= i < now.len() && 0 <= j < now[i].len() implies is_alphanumeric(
            #[trigger] now[i][j],
        ) by {
            if i < before.len() && j < before[i].len() {
                assert(now[i][j] == before[i][j]);
            }
        }
    }
}

proof fn lemma_join_nonempty(parts: Seq<Seq<char>>, separator: Seq<char>)
    requires
        parts.len() > 0,
        forall|i: int| 0 <= i < parts.len() ==> (#[trigger] parts[i]).len() > 0,
    ensures
        text::join(parts, separator).len() > 0,
{
    assert(parts.last().len() > 0);
}

/// The slug of a text that is in lower case already.
pub fn slug_of(lowered: &str) -> (r: String)
    ensures
        r@ == slug(lowered@),
{
    let v = text::chars_of(lowered);
    let mut out = String::new();
    let mut in_word = false;
    let mut i: usize = 0;
    while i < v.len()
        invariant
            v@ == lowered@,
            i <= v@.len(),
            in_word == (i > 0 && is_alphanumeric(v@[i - 1])),
            out@ == text::join(words(v@.take(i as int)), "-"@),
        decreases v@.len() - i,
    {
        let c = v[i];
        let ghost before = words(v@.take(i as int));
        proof {
            lemma_words(v@.take(i as int));
            assert(v@.take(i + 1).drop_last() =~= v@.take(i as int));
            assert(v@.take(i + 1).last() == c);
            if i > 0 {
                assert(v@.take(i as int).last() == v@[i - 1]);
                assert(v@.take(i + 1)[i - 1] == v@[i - 1]);
            }
            if before.len() > 0 {
                lemma_join_nonempty(before, "-"@);
            }
        }
        if alphanumeric(c) {
            if !in_word && !out.as_str().is_empty() {
                out.append("-");
            }
            out.push(c);
            in_word = true;
            proof {
                let now = words(v@.take(i + 1));
                if i > 0 && is_alphanumeric(v@[i - 1]) {
                    assert(now.drop_last() =~= before.drop_last());
                    assert(out@ =~= text::join(now, "-"@));
                } else {
                    assert(now.drop_last() =~= before);
                    assert(out@ =~= text::join(now, "-"@));
                }
            }
        } else {
            in_word = false;
        }
        i += 1;
    }
    proof {
        assert(v@.take(i as int) =~= v@);
        lemma_words(v@);
        if words(v@).len() > 0 {
            lemma_join_nonempty(words(v@), "-"@);
        }
    }
    if out.as_str().is_empty() {
        "run".to_string()
    } else {
        out
    }
}

/// What `slugify` may give for a name: the slug of its lower-case text, which for
/// a name of ASCII is known, and which holds no upper-case letter in any case.
pub open spec fn is_slug_of_name(r: Seq<char>, name: Seq<char>) -> bool {
    &&& r == slug(text::lowercase(name))
    &&& text::is_ascii(name) ==> r == slug(text::ascii_lower(name))
    &&& is_slug(r)
    &&& !text::has_upper(r)
}

/// A name as part of a run id: its words in lower case, joined by dashes.
pub fn slugify(name: &str) -> (r: String)
    ensures
        is_slug_of_name(r@, name@),
{
    let lowered = name.to_lowercase();
    proof {
        law_slug_form(lowered@);
        lemma_slug_keeps_case(lowered@);
    }
    slug_of(lowered.as_str())
}

/// Where a dash may stand: not first, not last and not beside another.
pub open spec fn is_slug(s: Seq<char>) -> bool {
    &&& s.len() > 0
    &&& s[0] != '-'
    &&& s.last() != '-'
    &&& forall|i: int| 0 <= i < s.len() ==> is_alphanumeric(#[trigger] s[i]) || s[i] == '-'
    &&& forall|i: int, j: int|
        0 <= i && i + 1 == j < s.len() ==> !(#[trigger] s[i] == '-' && #[trigger] s[j] == '-')
}

/// Whether a text is a word: not empty, and of letters and digits alone.
pub open spec fn is_word(s: Seq<char>) -> bool {
    s.len() > 0 && forall|i: int| 0 <= i < s.len() ==> is_alphanumeric(#[trigger] s[i])
}

proof fn lemma_slug_and_word(head: Seq<char>, word: Seq<char>)
    requires
        is_slug(head),
        is_word(word),
    ensures
        is_slug(head + seq!['-'] + word),
{
    let whole = head + seq!['-'] + word;
    let n = head.len() as int;
    assert(whole[0] == head[0]);
    assert(whole.last() == word[word.len() - 1]);
    assert forall|i: int| 0 <= i < whole.len() implies is_alphanumeric(#[trigger] whole[i])
        || whole[i] == '-' by {
        if i < n {
            assert(whole[i] == head[i]);
        } else if i > n {
            assert(whole[i] == word[i - n - 1]);
        }
    }
    assert forall|i: int, j: int| 0 <= i && i + 1 == j < whole.len() implies !(
    #[trigger] whole[i] == '-' && #[trigger] whole[j] == '-') by {
        if j < n {
            assert(whole[i] == head[i]);
            assert(whole[j] == head[j]);
        } else if j == n {
            assert(whole[i] == head.last());
        } else {
            assert(whole[j] == word[j - n - 1]);
        }
    }
}

proof fn lemma_join_is_slug(parts: Seq<Seq<char>>)
    requires
        parts.len() > 0,
        forall|i: int| 0 <= i < parts.len() ==> is_word(#[trigger] parts[i]),
    ensures
        is_slug(text::join(parts, "-"@)),
    decreases parts.len(),
{
    reveal_strlit("-");
    assert("-"@ =~= seq!['-']);
    let last = parts[parts.len() - 1];
    assert(is_word(last));
    assert(is_alphanumeric(last[0]) && is_alphanumeric(last[last.len() - 1]));
    if parts.len() > 1 {
        let before = parts.drop_last();
        assert forall|i: int| 0 <= i < before.len() implies is_word(#[trigger] before[i]) by {
            assert(before[i] == parts[i]);
        }
        lemma_join_is_slug(before);
        lemma_slug_and_word(text::join(before, "-"@), last);
    }
}

/// A slug is never empty, holds nothing but ASCII letters, digits and dashes,
/// and has no dash at its ends or beside another.
pub proof fn law_slug_form(s: Seq<char>)
    ensures
        is_slug(slug(s)),
{
    lemma_words(s);
    if words(s).len() == 0 {
        reveal_strlit("run");
    } else {
        assert forall|i: int| 0 <= i < words(s).len() implies is_word(#[trigger] words(s)[i]) by {
            assert forall|j: int| 0 <= j < words(s)[i].len() implies is_alphanumeric(
                #[trigger] words(s)[i][j],
            ) by {}
        }
        lemma_join_is_slug(words(s));
    }
}

proof fn lemma_words_of_word(head: Seq<char>, word: Seq<char>)
    requires
        word.len() > 0,
        forall|i: int| 0 <= i < word.len() ==> is_alphanumeric(#[trigger] word[i]),
        head.len() > 0 ==> !is_alphanumeric(head.last()),
    ensures
        words(head + word) == words(head).push(word),
    decreases word.len(),
{
    let whole = head + word;
    assert(whole.last() == word[word.len() - 1]);
    if word.len() == 1 {
        assert(whole.drop_last() =~= head);
        assert(word =~= seq![word[0]]);
        if whole.len() >= 2 {
            assert(whole[whole.len() - 2] == head.last());
        }
    } else {
        let start = word.drop_last();
        assert(whole.drop_last() =~= head + start);
        assert forall|i: int| 0 <= i < start.len() implies is_alphanumeric(#[trigger] start[i]) by {
            assert(is_alphanumeric(word[i]));
        }
        lemma_words_of_word(head, start);
        assert(whole[whole.len() - 2] == word[word.len() - 2]);
        assert(words(whole) =~= words(head).push(start.push(word.last())));
        assert(start.push(word.last()) =~= word);
    }
}

proof fn lemma_words_of_join(parts: Seq<Seq<char>>)
    requires
        forall|i: int| 0 <= i < parts.len() ==> (#[trigger] parts[i]).len() > 0,
        forall|i: int, j: int|
            0 <= i < parts.len() && 0 <= j < parts[i].len() ==> is_alphanumeric(
                #[trigger] parts[i][j],
            ),
    ensures
        words(text::join(parts, "-"@)) == parts,
    decreases parts.len(),
{
    reveal_strlit("-");
    if parts.len() == 0 {
        assert(words(text::join(parts, "-"@)) =~= parts);
    } else {
        let word = parts[parts.len() - 1];
        assert(word.len() > 0);
        assert forall|j: int| 0 <= j < word.len() implies is_alphanumeric(#[trigger] word[j]) by {
            assert(is_alphanumeric(parts[parts.len() - 1][j]));
        }
        if parts.len() == 1 {
            let empty = Seq::<char>::empty();
            lemma_words_of_word(empty, word);
            assert(empty + word =~= word);
            assert(words(empty).push(word) =~= parts);
        } else {
            let before = parts.drop_last();
            assert forall|i: int| 0 <= i < before.len() implies (#[trigger] before[i]).len()
                > 0 by {
                assert(parts[i].len() > 0);
            }
            assert forall|i: int, j: int|
                0 <= i < before.len() && 0 <= j < before[i].len() implies is_alphanumeric(
                #[trigger] before[i][j],
            ) by {
                assert(is_alphanumeric(parts[i][j]));
            }
            lemma_words_of_join(before);
            let head = text::join(before, "-"@);
            assert((head + "-"@).drop_last() =~= head);
            assert((head + "-"@).last() == '-');
            assert(words(head + "-"@) == words(head));
            lemma_words_of_word(head + "-"@, word);
            assert(words(head).push(word) =~= parts);
        }
    }
}

/// The slug of a slug is that slug.
pub proof fn law_slug_idempotent(s: Seq<char>)
    ensures
        slug(slug(s)) == slug(s),
{
    lemma_words(s);
    if words(s).len() == 0 {
        reveal_strlit("run");
        let run = seq!["run"@];
        assert(text::join(run, "-"@) == "run"@);
        lemma_words_of_join(run);
    } else {
        lemma_words_of_join(words(s));
    }
}

proof fn lemma_words_keep_case(s: Seq<char>)
    requires
        !text::has_upper(s),
    ensures
        forall|i: int| 0 <= i < words(s).len() ==> !text::has_upper(#[trigger] words(s)[i]),
    decreases s.len(),
{
    if s.len() > 0 {
        let front = s.drop_last();
        assert(!('A' <= s[s.len() - 1] <= 'Z'));
        if text::has_upper(front) {
            let k = choose|k: int| 0 <= k < front.len() && 'A' <= #[trigger] front[k] <= 'Z';
            assert('A' <= s[k] <= 'Z');
        }
        lemma_words_keep_case(front);
        lemma_words(front);
        let before = words(front);
        let now = words(s);
        if s.len() >= 2 {
            assert(front.last() == s[s.len() - 2]);
        }
        assert forall|i: int| 0 <= i < now.len() implies !text::has_upper(#[trigger] now[i]) by {
            if i < before.len() {
                assert(!text::has_upper(before[i]));
            }
            if text::has_upper(now[i]) {
                let k = choose|k: int| 0 <= k < now[i].len() && 'A' <= #[trigger] now[i][k] <= 'Z';
                if i < before.len() && k < before[i].len() {
                    assert('A' <= before[i][k] <= 'Z');
                }
            }
        }
    }
}

proof fn lemma_join_keeps_case(parts: Seq<Seq<char>>)
    requires
        forall|i: int| 0 <= i < parts.len() ==> !text::has_upper(#[trigger] parts[i]),
    ensures
        !text::has_upper(text::join(parts, "-"@)),
    decreases parts.len(),
{
    reveal_strlit("-");
    if parts.len() == 1 {
        assert(!text::has_upper(parts[0]));
    } else if parts.len() > 1 {
        let front = parts.drop_last();
        let last = parts[parts.len() - 1];
        assert(!text::has_upper(last));
        assert forall|i: int| 0 <= i < front.len() implies !text::has_upper(
            #[trigger] front[i],
        ) by {
            assert(front[i] == parts[i]);
        }
        lemma_join_keeps_case(front);
        let head = text::join(front, "-"@);
        let whole = text::join(parts, "-"@);
        if text::has_upper(whole) {
            let k = choose|k: int| 0 <= k < whole.len() && 'A' <= #[trigger] whole[k] <= 'Z';
            if k < head.len() {
                assert('A' <= head[k] <= 'Z');
            } else if k > head.len() {
                assert('A' <= last[k - head.len() - 1] <= 'Z');
            }
        }
    }
}

proof fn lemma_slug_keeps_case(s: Seq<char>)
    requires
        !text::has_upper(s),
    ensures
        !text::has_upper(slug(s)),
{
    if words(s).len() == 0 {
        reveal_strlit("run");
    } else {
        lemma_words_keep_case(s);
        lemma_join_keeps_case(words(s));
    }
}

proof fn lemma_slug_is_lower_ascii(r: Seq<char>)
    requires
        is_slug(r),
        !text::has_upper(r),
    ensures
        text::is_ascii(r),
        text::ascii_lower(r) == r,
        forall|i: int|
            0 <= i < r.len() ==> ('a' <= #[trigger] r[i] <= 'z') || ('0' <= r[i] <= '9') || r[i]
                == '-',
{
    assert forall|i: int| 0 <= i < r.len() implies ('a' <= #[trigger] r[i] <= 'z') || ('0' <= r[i]
        <= '9') || r[i] == '-' by {
        assert(is_alphanumeric(r[i]) || r[i] == '-');
        assert(!('A' <= r[i] <= 'Z'));
    }
    assert(text::ascii_lower(r) =~= r);
}

/// What `slugify` gives consists of `a` to `z`, `0` to `9` and dashes, and
/// `slugify` gives it back as it is, whatever the name was.
pub proof fn law_slugify_twice(name: Seq<char>, once: Seq<char>, twice: Seq<char>)
    requires
        is_slug_of_name(once, name),
        is_slug_of_name(twice, once),
    ensures
        twice == once,
        forall|i: int|
            0 <= i < once.len() ==> ('a' <= #[trigger] once[i] <= 'z') || ('0' <= once[i] <= '9')
                || once[i] == '-',
{
    lemma_slug_is_lower_ascii(once);
    law_slug_idempotent(text::lowercase(name));
}

/// The case of a name of ASCII does not matter.
pub proof fn law_slugify_ignores_case(
    name: Seq<char>,
    plain: Seq<char>,
    upper: Seq<char>,
    lower: Seq<char>,
)
    requires
        text::is_ascii(name),
        is_slug_of_name(plain, name),
        is_slug_of_name(upper, text::ascii_upper(name)),
        is_slug_of_name(lower, text::ascii_lower(name)),
    ensures
        upper == plain,
        lower == plain,
{
    let (u, l) = (text::ascii_upper(name), text::ascii_lower(name));
    assert(text::ascii_lower(u) =~= l);
    assert(text::ascii_lower(l) =~= l);
    assert forall|i: int| 0 <= i < name.len() implies (#[trigger] u[i] as u32) < 128 by {
        assert((name[i] as u32) < 128);
    }
    assert forall|i: int| 0 <= i < name.len() implies (#[trigger] l[i] as u32) < 128 by {
        assert((name[i] as u32) < 128);
    }
}

// ---------------------------------------------------------------------------
// Timestamps.
// ---------------------------------------------------------------------------

/// `YYYY-MM-DD` of the day of a moment, given in seconds since 1970.
pub open spec fn date_text(secs: int) -> Seq<char> {
    let date = calendar::date_of(secs / 86_400);
    text::signed_padded(date.0, 4) + "-"@ + text::zero_padded(date.1 as nat, 2) + "-"@
        + text::zero_padded(date.2 as nat, 2)
}

pub open spec fn hour_of(secs: int) -> nat {
    (secs % 86_400 / 3600) as nat
}

pub open spec fn minute_of(secs: int) -> nat {
    (secs % 86_400 % 3600 / 60) as nat
}

pub open spec fn second_of(secs: int) -> nat {
    (secs % 86_400 % 60) as nat
}

/// `YYYY-MM-DD-HHMM`, the beginning of a run id.
pub open spec fn stamp_text(secs: int) -> Seq<char> {
    date_text(secs) + "-"@ + text::zero_padded(hour_of(secs), 2) + text::zero_padded(
        minute_of(secs),
        2,
    )
}

/// `YYYY-MM-DDTHH:MM:SSZ`.
pub open spec fn iso_text(secs: int) -> Seq<char> {
    date_text(secs) + "T"@ + text::zero_padded(hour_of(secs), 2) + ":"@ + text::zero_padded(
        minute_of(secs),
        2,
    ) + ":"@ + text::zero_padded(second_of(secs), 2) + "Z"@
}

/// Appends `YYYY-MM-DD`.
fn push_date(out: &mut String, secs: i64)
    ensures
        final(out)@ == old(out)@ + date_text(secs as int),
{
    let days = floor_div(secs, 86_400);
    let (y, m, d) = civil_from_days(days);
    text::push_signed_padded(out, y, 4);
    out.append("-");
    text::push_padded(out, m as u64, 2);
    out.append("-");
    text::push_padded(out, d as u64, 2);
    assert(out@ =~= old(out)@ + date_text(secs as int));
}

/// The seconds of the day of a moment.
fn seconds_of_day(secs: i64) -> (r: u64)
    ensures
        r == secs as int % 86_400,
        r < 86_400,
{
    let days = floor_div(secs, 86_400);
    (secs as i128 - days as i128 * 86_400) as u64
}

/// The stamp of a moment, given in seconds since 1970.
pub fn stamp_at(secs: i64) -> (r: String)
    ensures
        r@ == stamp_text(secs as int),
{
    let mut out = String::new();
    push_date(&mut out, secs);
    let rem = seconds_of_day(secs);
    out.append("-");
    text::push_padded(&mut out, rem / 3600, 2);
    text::push_padded(&mut out, rem % 3600 / 60, 2);
    assert(out@ =~= stamp_text(secs as int));
    out
}

/// The ISO 8601 text of a moment, given in seconds since 1970.
pub fn iso_at(secs: i64) -> (r: String)
    ensures
        r@ == iso_text(secs as int),
{
    let mut out = String::new();
    push_date(&mut out, secs);
    let rem = seconds_of_day(secs);
    out.append("T");
    text::push_padded(&mut out, rem / 3600, 2);
    out.append(":");
    text::push_padded(&mut out, rem % 3600 / 60, 2);
    out.append(":");
    text::push_padded(&mut out, rem % 60, 2);
    out.append("Z");
    assert(out@ =~= iso_text(secs as int));
    out
}


/// A moment whose year has at most four digits.
pub open spec fn four_digit_year(secs: int) -> bool {
    0 <= calendar::date_of(secs / 86_400).0 <= 9999
}

/// The fields of a stamp, each in its fixed width.
spec fn stamp_fields(secs: int) -> Seq<char> {
    let date = calendar::date_of(secs / 86_400);
    text::fixed_digits(date.0 as nat, 4) + ("-"@ + (text::fixed_digits(date.1 as nat, 2) + ("-"@ + (
    text::fixed_digits(date.2 as nat, 2) + ("-"@ + (text::fixed_digits(hour_of(secs), 2)
        + text::fixed_digits(minute_of(secs), 2)))))))
}

proof fn lemma_stamp_fields(secs: int)
    requires
        four_digit_year(secs),
    ensures
        stamp_text(secs) == stamp_fields(secs),
        calendar::valid_date(
            calendar::date_of(secs / 86_400).0,
            calendar::date_of(secs / 86_400).1,
            calendar::date_of(secs / 86_400).2,
        ),
        hour_of(secs) < 24,
        minute_of(secs) < 60,
        second_of(secs) < 60,
        text::ten_to(4) == 10000,
        text::ten_to(2) == 100,
{
    let date = calendar::date_of(secs / 86_400);
    calendar::law_every_day_has_a_date(secs / 86_400);
    reveal_with_fuel(text::ten_to, 5);
    text::lemma_zero_padded_fixed(date.0 as nat, 4);
    text::lemma_zero_padded_fixed(date.1 as nat, 2);
    text::lemma_zero_padded_fixed(date.2 as nat, 2);
    text::lemma_zero_padded_fixed(hour_of(secs), 2);
    text::lemma_zero_padded_fixed(minute_of(secs), 2);
    assert(stamp_text(secs) =~= stamp_fields(secs));
}

/// One field more in front: a smaller number decides, an equal one passes the
/// decision on.
proof fn lemma_field_in_front(a: nat, b: nat, width: nat, x: Seq<char>, y: Seq<char>)
    requires
        a < b < text::ten_to(width) || (a == b && text::text_less(x, y)),
    ensures
        text::text_less(text::fixed_digits(a, width) + x, text::fixed_digits(b, width) + y),
{
    text::lemma_fixed_digits_len(a, width);
    text::lemma_fixed_digits_len(b, width);
    if a < b {
        text::lemma_fixed_digits_ordered(a, b, width);
        text::lemma_text_less_heads(
            text::fixed_digits(a, width),
            text::fixed_digits(b, width),
            x,
            y,
        );
    } else {
        text::lemma_text_less_prefix(text::fixed_digits(a, width), x, y);
    }
}

/// Stamps sort as the moments they name: that of a later minute comes after.
pub proof fn law_stamps_sort(a: int, b: int)
    requires
        four_digit_year(a),
        four_digit_year(b),
        a / 60 < b / 60,
    ensures
        text::text_less(stamp_text(a), stamp_text(b)),
{
    lemma_stamp_fields(a);
    lemma_stamp_fields(b);
    let da = calendar::date_of(a / 86_400);
    let db = calendar::date_of(b / 86_400);
    let ma = text::fixed_digits(minute_of(a), 2);
    let mb = text::fixed_digits(minute_of(b), 2);
    let ta = text::fixed_digits(hour_of(a), 2) + ma;
    let tb = text::fixed_digits(hour_of(b), 2) + mb;
    if a / 86_400 == b / 86_400 {
        if hour_of(a) == hour_of(b) {
            assert(minute_of(a) < minute_of(b));
            text::lemma_fixed_digits_ordered(minute_of(a), minute_of(b), 2);
        } else {
            assert(hour_of(a) < hour_of(b));
        }
        lemma_field_in_front(hour_of(a), hour_of(b), 2, ma, mb);
    } else {
        assert(a / 86_400 < b / 86_400);
        calendar::law_later_days(a / 86_400, b / 86_400);
    }
    let dash = "-"@;
    if da.0 == db.0 && da.1 == db.1 && da.2 == db.2 {
        text::lemma_text_less_prefix(dash, ta, tb);
    }
    let xa = text::fixed_digits(da.2 as nat, 2) + (dash + ta);
    let xb = text::fixed_digits(db.2 as nat, 2) + (dash + tb);
    if da.0 == db.0 && da.1 == db.1 {
        lemma_field_in_front(da.2 as nat, db.2 as nat, 2, dash + ta, dash + tb);
        text::lemma_text_less_prefix(dash, xa, xb);
    }
    let ya = text::fixed_digits(da.1 as nat, 2) + (dash + xa);
    let yb = text::fixed_digits(db.1 as nat, 2) + (dash + xb);
    if da.0 == db.0 {
        lemma_field_in_front(da.1 as nat, db.1 as nat, 2, dash + xa, dash + xb);
        text::lemma_text_less_prefix(dash, ya, yb);
    }
    lemma_field_in_front(da.0 as nat, db.0 as nat, 4, dash + ya, dash + yb);
}

proof fn lemma_fixed_digits_are_digits(n: nat, width: nat)
    ensures
        text::fixed_digits(n, width).len() == width,
        forall|i: int|
            0 <= i < width ==> '0' <= #[trigger] text::fixed_digits(n, width)[i] <= '9',
    decreases width,
{
    if width > 0 {
        lemma_fixed_digits_are_digits(n / 10, (width - 1) as nat);
    }
}

/// A stamp has fifteen characters: digits, and dashes after the year, the month
/// and the day.
pub proof fn law_stamp_shape(secs: int)
    requires
        four_digit_year(secs),
    ensures
        stamp_text(secs).len() == 15,
        forall|i: int|
            0 <= i < 15 ==> if i == 4 || i == 7 || i == 10 {
                #[trigger] stamp_text(secs)[i] == '-'
            } else {
                '0' <= stamp_text(secs)[i] <= '9'
            },
{
    lemma_stamp_fields(secs);
    reveal_strlit("-");
    let date = calendar::date_of(secs / 86_400);
    lemma_fixed_digits_are_digits(date.0 as nat, 4);
    lemma_fixed_digits_are_digits(date.1 as nat, 2);
    lemma_fixed_digits_are_digits(date.2 as nat, 2);
    lemma_fixed_digits_are_digits(hour_of(secs), 2);
    lemma_fixed_digits_are_digits(minute_of(secs), 2);
    let y = text::fixed_digits(date.0 as nat, 4);
    let m = text::fixed_digits(date.1 as nat, 2);
    let d = text::fixed_digits(date.2 as nat, 2);
    let h = text::fixed_digits(hour_of(secs), 2);
    let n = text::fixed_digits(minute_of(secs), 2);
    assert(stamp_text(secs) =~= seq![
        y[0],
        y[1],
        y[2],
        y[3],
        '-',
        m[0],
        m[1],
        '-',
        d[0],
        d[1],
        '-',
        h[0],
        h[1],
        n[0],
        n[1],
    ]);
}

// ---------------------------------------------------------------------------
// The clock.
// ---------------------------------------------------------------------------

/// A moment as the system clock gives it.
#[verifier::external_type_specification]
#[verifier::external_body]
pub struct ExSystemTime(std::time::SystemTime);

/// What `SystemTime::duration_since` gives for a moment that came earlier.
#[verifier::external_type_specification]
#[verifier::external_body]
pub struct ExSystemTimeError(std::time::SystemTimeError);

/// `SystemTime::now` reads the clock; nothing is claimed of what it says.
pub assume_specification[ std::time::SystemTime::now ]() -> std::time::SystemTime
;

/// `Duration::as_secs` gives a count of whole seconds; nothing more is claimed.
pub assume_specification[ std::time::Duration::as_secs ](span: &std::time::Duration) -> u64
;

/// `SystemTime::duration_since` the Unix epoch; nothing is claimed of what it
/// gives.
#[verifier::external_body]
fn since_epoch(moment: std::time::SystemTime) -> Result<
    std::time::Duration,
    std::time::SystemTimeError,
> {
    moment.duration_since(std::time::UNIX_EPOCH)
}

/// The seconds since 1970 that a reading of the clock stands for: 0 where the
/// clock stands before that.
pub fn seconds_of(reading: Option<u64>) -> (r: i64)
    ensures
        r == match reading {
            Some(secs) => secs as i64,
            None => 0i64,
        },
{
    match reading {
        Some(secs) => #[verifier::truncate]
        (secs as i64),
        None => 0,
    }
}

/// The seconds since 1970 by the system clock. What the clock says depends on
/// the moment, so nothing is claimed of the result; what becomes of a reading is
/// stated by `seconds_of`.
fn now_secs() -> i64 {
    let reading = match since_epoch(std::time::SystemTime::now()) {
        Ok(span) => Some(span.as_secs()),
        Err(_) => None,
    };
    seconds_of(reading)
}

/// The stamp of the present moment.
pub fn now_stamp() -> (r: String)
    ensures
        exists|secs: i64| r@ == #[trigger] stamp_text(secs as int),
{
    let secs = now_secs();
    stamp_at(secs)
}

/// The ISO 8601 text of the present moment.
pub fn now_iso() -> (r: String)
    ensures
        exists|secs: i64| r@ == #[trigger] iso_text(secs as int),
{
    let secs = now_secs();
    iso_at(secs)
}

// ---------------------------------------------------------------------------
// The directory of a run.
// ---------------------------------------------------------------------------

/// The directory of one run, as names below the project directory.
pub struct RunDir {
    pub path: Vec<String>,
}

/// A file to be written whole: its text goes to `tmp`, which is then renamed to
/// `path`.
pub struct FileWrite {
    pub path: Vec<String>,
    pub tmp: Vec<String>,
    pub text: String,
}

/// The text of a file that holds a JSON value.
pub open spec fn file_text(value: json::Json) -> Seq<char> {
    match json::json_pretty(value) {
        Some(text) => text + "\n"@,
        None => "{}"@ + "\n"@,
    }
}

/// A path with one name more.
fn below(path: &Vec<String>, name: &str) -> (r: Vec<String>)
    ensures
        text::texts(r@) == text::texts(path@).push(name@),
{
    let mut r = text::copy_strings(path);
    r.push(name.to_string());
    assert(text::texts(r@) =~= text::texts(path@).push(name@));
    r
}

/// The file `name` of a directory, written whole with a JSON value as its text.
pub fn atomic_write_json(dir: &Vec<String>, name: &str, value: &serde_json::Value) -> (r: FileWrite)
    ensures
        text::texts(r.path@) == text::texts(dir@).push(name@),
        text::texts(r.tmp@) == text::texts(dir@).push(paths::with_extension(name@, "json.tmp"@)),
        r.text@ == file_text(json::json_model(*value)),
{
    let tmp_name = paths::replace_extension(name, "json.tmp");
    let mut body = match json::pretty(value) {
        Some(text) => text,
        None => "{}".to_string(),
    };
    body.append("\n");
    FileWrite { path: below(dir, name), tmp: below(dir, tmp_name.as_str()), text: body }
}

impl RunDir {
    /// The names of the directory below the project directory.
    pub open spec fn names(&self) -> Seq<Seq<char>> {
        text::texts(self.path@)
    }

    /// The id of the run: the last name of its directory.
    pub open spec fn id(&self) -> Seq<char> {
        if self.path@.len() > 0 {
            self.path@.last()@
        } else {
            "run"@
        }
    }

    pub fn run_id(&self) -> (r: String)
        ensures
            r@ == self.id(),
    {
        if self.path.len() > 0 {
            self.path[self.path.len() - 1].clone()
        } else {
            "run".to_string()
        }
    }

    pub fn checkpoints_dir(&self) -> (r: Vec<String>)
        ensures
            text::texts(r@) == self.names().push("checkpoints"@),
    {
        below(&self.path, "checkpoints")
    }

    pub fn artifacts_dir(&self) -> (r: Vec<String>)
        ensures
            text::texts(r@) == self.names().push("artifacts"@),
    {
        below(&self.path, "artifacts")
    }

    /// The file to which the events of the run are appended.
    pub fn metrics_file(&self) -> (r: Vec<String>)
        ensures
            text::texts(r@) == self.names().push("metrics.jsonl"@),
    {
        below(&self.path, "metrics.jsonl")
    }

    /// What to append to the metrics file for an event.
    pub fn append_event(&self, event: &serde_json::Value) -> (r: Option<String>)
        ensures
            json::maybe_text(r) == protocol::event_line(json::json_model(*event)),
            r is Some ==> protocol::is_one_line(r->0@),
    {
        protocol::to_line(event)
    }

    pub fn write_config(&self, config: &serde_json::Value) -> (r: FileWrite)
        ensures
            text::texts(r.path@) == self.names().push("config.json"@),
            text::texts(r.tmp@) == self.names().push("config.json.tmp"@),
            r.text@ == file_text(json::json_model(*config)),
    {
        let r = atomic_write_json(&self.path, "config.json", config);
        proof {
            reveal_strlit("config.json");
            reveal_strlit("json.tmp");
            reveal_strlit("config.json.tmp");
            reveal_strlit(".");
            reveal_with_fuel(paths::last_stop, 6);
            reveal_strlit("..");
            assert(paths::last_stop("config.json"@) == 6);
            paths::lemma_plain_name("config.json"@, "json.tmp"@);
            assert(paths::renamed("config.json"@, "json.tmp"@) =~= "config.json.tmp"@);
        }
        r
    }

    pub fn write_summary(&self, summary: &serde_json::Value) -> (r: FileWrite)
        ensures
            text::texts(r.path@) == self.names().push("summary.json"@),
            text::texts(r.tmp@) == self.names().push("summary.json.tmp"@),
            r.text@ == file_text(json::json_model(*summary)),
    {
        let r = atomic_write_json(&self.path, "summary.json", summary);
        proof {
            reveal_strlit("summary.json");
            reveal_strlit("json.tmp");
            reveal_strlit("summary.json.tmp");
            reveal_strlit(".");
            reveal_with_fuel(paths::last_stop, 6);
            reveal_strlit("..");
            assert(paths::last_stop("summary.json"@) == 7);
            paths::lemma_plain_name("summary.json"@, "json.tmp"@);
            assert(paths::renamed("summary.json"@, "json.tmp"@) =~= "summary.json.tmp"@);
        }
        r
    }
}

/// The name of the `attempt`-th directory that is tried for a run: the base
/// itself first, then the base with a number from 2 on.
pub open spec fn candidate_id(base: Seq<char>, attempt: nat) -> Seq<char> {
    if attempt <= 1 {
        base
    } else {
        base + "-"@ + text::decimal(attempt)
    }
}

/// The largest number that a directory name can carry.
pub const MAX_ATTEMPT: u32 = 0x7fff_ffff;

/// Whether the `k`-th name that is tried is the first one that is free, given
/// the names that exist.
pub open spec fn is_first_free(base: Seq<char>, existing: Set<Seq<char>>, k: nat) -> bool {
    &&& k >= 1
    &&& !existing.contains(candidate_id(base, k))
    &&& forall|j: nat| 1 <= j < k ==> existing.contains(#[trigger] candidate_id(base, j))
}

/// The search for a directory that no earlier run has taken.
pub struct RunSearch {
    base: String,
}

impl RunSearch {
    /// What every directory name that is tried begins with.
    pub closed spec fn base_id(&self) -> Seq<char> {
        self.base@
    }

    /// The search for the directory of a run that starts at a given stamp.
    pub fn starting_at(stamp: &str, name: &str) -> (r: Self)
        ensures
            exists|s: Seq<char>| #[trigger]
                is_slug_of_name(s, name@) && r.base_id() == stamp@ + "-"@ + s,
    {
        let mut base = stamp.to_string();
        base.append("-");
        let name_slug = slugify(name);
        base.append(name_slug.as_str());
        assert(is_slug_of_name(name_slug@, name@));
        RunSearch { base }
    }

    /// The `attempt`-th name that is tried.
    fn candidate(&self, attempt: u32) -> (r: String)
        ensures
            r@ == candidate_id(self.base_id(), attempt as nat),
    {
        let mut name = self.base.clone();
        if attempt > 1 {
            name.append("-");
            text::push_decimal(&mut name, attempt as u64);
        }
        name
    }

    /// The directory of the run, given the names of the directories that exist:
    /// the first name that is free. There is none only where every number is
    /// taken.
    pub fn first_free(&self, existing: &Vec<String>) -> (r: Option<RunDir>)
        ensures
            match r {
                Some(dir) => exists|k: nat|
                    {
                        &&& k <= MAX_ATTEMPT
                        &&& #[trigger] is_first_free(
                            self.base_id(),
                            text::texts(existing@).to_set(),
                            k,
                        )
                        &&& dir.id() == candidate_id(self.base_id(), k)
                        &&& dir.names() == seq![
                            ".nexis-ml"@,
                            "runs"@,
                            candidate_id(self.base_id(), k),
                        ]
                    },
                None => forall|k: nat|
                    1 <= k <= MAX_ATTEMPT ==> text::texts(existing@).to_set().contains(
                        #[trigger] candidate_id(self.base_id(), k),
                    ),
            },
            !text::texts(existing@).contains(self.base_id()) ==> r is Some && r->0.id()
                == self.base_id(),
            existing@.len() < MAX_ATTEMPT ==> r is Some,
    {
        let ghost taken = text::texts(existing@);
        let ghost base = self.base_id();
        let mut attempt: u32 = 1;
        while attempt <= MAX_ATTEMPT
            invariant
                1 <= attempt <= MAX_ATTEMPT + 1,
                taken == text::texts(existing@),
                base == self.base_id(),
                forall|j: nat|
                    1 <= j < attempt ==> taken.to_set().contains(#[trigger] candidate_id(base, j)),
            decreases MAX_ATTEMPT + 1 - attempt,
        {
            let name = self.candidate(attempt);
            match text::position(existing, name.as_str()) {
                Some(i) => {
                    assert(taken[i as int] == name@);
                },
                None => {
                    proof {
                        if taken.contains(name@) {
                            let k = choose|k: int| 0 <= k < taken.len() && taken[k] == name@;
                            assert(existing@[k]@ == name@);
                        }
                        assert(is_first_free(base, taken.to_set(), attempt as nat));
                        assert(attempt > 1 ==> taken.to_set().contains(candidate_id(base, 1)));
                    }
                    let mut path: Vec<String> = Vec::new();
                    path.push(".nexis-ml".to_string());
                    path.push("runs".to_string());
                    path.push(name);
                    assert(text::texts(path@) =~= seq![".nexis-ml"@, "runs"@, name@]);
                    return Some(RunDir { path });
                },
            }
            attempt += 1;
        }
        proof {
            lemma_taken_names(base, taken, MAX_ATTEMPT as nat);
            assert(taken.to_set().contains(candidate_id(base, 1)));
        }
        None
    }
}

/// The search for the directory of a run that starts now.
pub fn new_run_dir(name: &str) -> (r: RunSearch)
    ensures
        exists|secs: i64, s: Seq<char>|
            r.base_id() == #[trigger] stamp_text(secs as int) + "-"@ + s
                && #[trigger] is_slug_of_name(s, name@),
{
    let stamp = now_stamp();
    RunSearch::starting_at(stamp.as_str(), name)
}

/// Where the first `k` names are taken, there are at least `k` names.
proof fn lemma_taken_names(base: Seq<char>, taken: Seq<Seq<char>>, k: nat)
    requires
        forall|j: nat|
            1 <= j <= k ==> taken.to_set().contains(#[trigger] candidate_id(base, j)),
    ensures
        taken.len() >= k,
{
    let tried = Seq::new(k, |i: int| candidate_id(base, (i + 1) as nat));
    assert forall|i: int, j: int| 0 <= i < j < tried.len() implies tried[i] != tried[j] by {
        law_candidates_distinct(base, (i + 1) as nat, (j + 1) as nat);
    }
    tried.unique_seq_to_set();
    vstd::seq_lib::seq_to_set_is_finite(taken);
    taken.lemma_cardinality_of_set();
    assert forall|s: Seq<char>| tried.to_set().contains(s) implies taken.to_set().contains(s) by {
        let i = choose|i: int| 0 <= i < tried.len() && tried[i] == s;
        assert(taken.to_set().contains(candidate_id(base, (i + 1) as nat)));
    }
    vstd::set_lib::lemma_len_subset(tried.to_set(), taken.to_set());
}

/// The name that a search finds is the base where that is free, and otherwise
/// the base with the least number from 2 on that is free. It never exists yet.
pub proof fn law_search_finds_least_free(base: Seq<char>, existing: Set<Seq<char>>, k: nat)
    requires
        is_first_free(base, existing, k),
    ensures
        !existing.contains(candidate_id(base, k)),
        !existing.contains(base) ==> candidate_id(base, k) == base,
        existing.contains(base) ==> {
            &&& k >= 2
            &&& candidate_id(base, k) == base + "-"@ + text::decimal(k)
            &&& forall|n: nat|
                2 <= n < k ==> existing.contains(base + "-"@ + #[trigger] text::decimal(n))
        },
{
    if k > 1 {
        assert(existing.contains(candidate_id(base, 1)));
    }
    assert forall|n: nat| 2 <= n < k implies existing.contains(
        base + "-"@ + #[trigger] text::decimal(n),
    ) by {
        assert(existing.contains(candidate_id(base, n)));
    }
}

/// A search has only one outcome, and two runs never share a directory: once the
/// name that was found exists, a search from the same base finds another.
pub proof fn law_runs_share_no_directory(
    base: Seq<char>,
    existing: Set<Seq<char>>,
    k: nat,
    later: Set<Seq<char>>,
    m: nat,
)
    requires
        is_first_free(base, existing, k),
        later.contains(candidate_id(base, k)),
        is_first_free(base, later, m),
    ensures
        candidate_id(base, m) != candidate_id(base, k),
        forall|j: nat| #[trigger] is_first_free(base, existing, j) ==> j == k,
{
    assert forall|j: nat| #[trigger] is_first_free(base, existing, j) implies j == k by {
        if j < k {
            assert(existing.contains(candidate_id(base, j)));
        } else if k < j {
            assert(existing.contains(candidate_id(base, k)));
        }
    }
}

/// The search never tries the same name twice.
pub proof fn law_candidates_distinct(base: Seq<char>, i: nat, j: nat)
    requires
        1 <= i < j,
    ensures
        candidate_id(base, i) != candidate_id(base, j),
{
    reveal_strlit("-");
    text::lemma_decimal_chars(j);
    if candidate_id(base, i) == candidate_id(base, j) {
        if i == 1 {
            assert(candidate_id(base, i).len() < candidate_id(base, j).len());
        } else {
            let n = base.len() as int + 1;
            assert(candidate_id(base, i).skip(n) =~= text::decimal(i));
            assert(candidate_id(base, j).skip(n) =~= text::decimal(j));
            text::lemma_decimal_injective(i, j);
        }
    }
}

/// Run ids sort newest last: whatever names and numbers follow the stamps, a
/// run that started in a later minute has the later id.
pub proof fn law_run_ids_sort(a: int, b: int, rest_a: Seq<char>, rest_b: Seq<char>)
    requires
        four_digit_year(a),
        four_digit_year(b),
        a / 60 < b / 60,
    ensures
        text::text_less(stamp_text(a) + rest_a, stamp_text(b) + rest_b),
{
    law_stamps_sort(a, b);
    law_stamp_shape(a);
    law_stamp_shape(b);
    text::lemma_text_less_heads(stamp_text(a), stamp_text(b), rest_a, rest_b);
}

// ---------------------------------------------------------------------------
// Laws of slugs and moments.
// ---------------------------------------------------------------------------

proof fn lemma_words_part(a: Seq<char>, c: char, b: Seq<char>)
    requires
        !is_alphanumeric(c),
    ensures
        words(a + seq![c] + b) == words(a) + words(b),
    decreases b.len(),
{
    let all = a + seq![c] + b;
    if b.len() == 0 {
        assert(all.drop_last() =~= a);
        assert(all.last() == c);
        assert(words(a) + words(b) =~= words(a));
    } else {
        let front = b.drop_last();
        lemma_words_part(a, c, front);
        assert(all.drop_last() =~= a + seq![c] + front);
        assert(all.last() == b.last());
        if b.len() >= 2 {
            assert(all[all.len() - 2] == b[b.len() - 2]);
            lemma_words(front);
            assert(front.last() == b[b.len() - 2]);
        } else {
            assert(all[all.len() - 2] == c);
        }
        assert(words(all) =~= words(a) + words(b));
    }
}

proof fn lemma_word_is_one(s: Seq<char>)
    requires
        is_word(s),
    ensures
        words(s) == seq![s],
    decreases s.len(),
{
    let front = s.drop_last();
    assert(s.last() == s[s.len() - 1]);
    if front.len() == 0 {
        assert(words(front) =~= Seq::<Seq<char>>::empty());
        assert(words(s) =~= seq![seq![s.last()]]);
        assert(s =~= seq![s.last()]);
    } else {
        assert forall|i: int| 0 <= i < front.len() implies is_alphanumeric(#[trigger] front[i]) by {
            assert(front[i] == s[i]);
        }
        lemma_word_is_one(front);
        assert(is_alphanumeric(s[s.len() - 2]));
        assert(front.push(s.last()) =~= s);
        assert(words(s) =~= seq![s]);
    }
}

/// A slug keeps every word of a text, whole and in order: a word is its own slug,
/// and where other characters part a text, a dash joins the slugs of the two
/// sides. A text without a word is called `run`.
pub proof fn law_slug_keeps_every_word(a: Seq<char>, c: char, b: Seq<char>)
    requires
        !is_alphanumeric(c),
    ensures
        is_word(a) ==> slug(a) == a,
        words(a).len() > 0 && words(b).len() > 0 ==> slug(a + seq![c] + b) == slug(a) + "-"@
            + slug(b),
        words(b).len() == 0 ==> slug(a + seq![c] + b) == slug(a),
        words(a).len() == 0 ==> slug(a + seq![c] + b) == slug(b),
        (forall|i: int| 0 <= i < a.len() ==> !is_alphanumeric(#[trigger] a[i])) ==> words(a).len()
            == 0 && slug(a) == "run"@,
        (exists|i: int| 0 <= i < a.len() && is_alphanumeric(#[trigger] a[i])) ==> words(a).len()
            > 0,
{
    lemma_words_part(a, c, b);
    if is_word(a) {
        lemma_word_is_one(a);
        assert(text::join(seq![a], "-"@) == a);
    }
    if words(a).len() > 0 && words(b).len() > 0 {
        text::law_join_of_two_lists(words(a), words(b), "-"@);
    }
    assert(words(a) + Seq::<Seq<char>>::empty() =~= words(a));
    assert(Seq::<Seq<char>>::empty() + words(b) =~= words(b));
    assert(words(b).len() == 0 ==> words(b) =~= Seq::<Seq<char>>::empty());
    assert(words(a).len() == 0 ==> words(a) =~= Seq::<Seq<char>>::empty());
    lemma_no_words(a);
}

proof fn lemma_no_words(s: Seq<char>)
    ensures
        words(s).len() == 0 <==> forall|i: int|
            0 <= i < s.len() ==> !is_alphanumeric(#[trigger] s[i]),
    decreases s.len(),
{
    if s.len() > 0 {
        let front = s.drop_last();
        lemma_no_words(front);
        lemma_words(front);
        assert(s[s.len() - 1] == s.last());
        if forall|i: int| 0 <= i < s.len() ==> !is_alphanumeric(#[trigger] s[i]) {
            assert forall|i: int| 0 <= i < front.len() implies !is_alphanumeric(
                #[trigger] front[i],
            ) by {
                assert(front[i] == s[i]);
            }
        }
        if words(s).len() == 0 {
            lemma_words(s);
            assert(!is_alphanumeric(s.last()));
            assert forall|i: int| 0 <= i < s.len() implies !is_alphanumeric(#[trigger] s[i]) by {
                if i < front.len() {
                    assert(front[i] == s[i]);
                }
            }
        }
    }
}

/// The hour, the minute and the second of a moment add up to the time of its day.
pub proof fn law_time_of_day(secs: int)
    ensures
        hour_of(secs) < 24,
        minute_of(secs) < 60,
        second_of(secs) < 60,
        secs == 86_400 * (secs / 86_400) + 3600 * hour_of(secs) + 60 * minute_of(secs)
            + second_of(secs),
{
    let day = secs % 86_400;
    assert(day % 3600 % 60 == day % 60);
}

proof fn lemma_two_digits(n: nat)
    requires
        n < 100,
    ensures
        text::zero_padded(n, 2).len() == 2,
        text::value_of(text::zero_padded(n, 2)) == n,
{
    reveal_with_fuel(text::ten_to, 3);
    text::lemma_zero_padded_fixed(n, 2);
    text::law_padding_keeps_the_number(n, 2);
}

/// A moment reads back from what is written of it: the year, month and day are
/// those of its day, and the hour, minute and second those of its time.
pub proof fn law_moments_read_back(secs: int)
    requires
        four_digit_year(secs),
    ensures
        ({
            let date = calendar::date_of(secs / 86_400);
            let iso = iso_text(secs);
            let stamp = stamp_text(secs);
            &&& iso.len() == 20
            &&& text::value_of(iso.subrange(0, 4)) == date.0
            &&& text::value_of(iso.subrange(5, 7)) == date.1
            &&& text::value_of(iso.subrange(8, 10)) == date.2
            &&& text::value_of(iso.subrange(11, 13)) == hour_of(secs)
            &&& text::value_of(iso.subrange(14, 16)) == minute_of(secs)
            &&& text::value_of(iso.subrange(17, 19)) == second_of(secs)
            &&& iso[4] == '-' && iso[7] == '-' && iso[10] == 'T'
            &&& iso[13] == ':' && iso[16] == ':' && iso[19] == 'Z'
            &&& stamp.len() == 15
            &&& text::value_of(stamp.subrange(0, 4)) == date.0
            &&& text::value_of(stamp.subrange(5, 7)) == date.1
            &&& text::value_of(stamp.subrange(8, 10)) == date.2
            &&& text::value_of(stamp.subrange(11, 13)) == hour_of(secs)
            &&& text::value_of(stamp.subrange(13, 15)) == minute_of(secs)
            &&& stamp[4] == '-' && stamp[7] == '-' && stamp[10] == '-'
        }),
{
    let date = calendar::date_of(secs / 86_400);
    calendar::law_every_day_has_a_date(secs / 86_400);
    law_time_of_day(secs);
    reveal_strlit("-");
    reveal_strlit("T");
    reveal_strlit(":");
    reveal_strlit("Z");
    let y = text::signed_padded(date.0, 4);
    reveal_with_fuel(text::ten_to, 5);
    text::lemma_zero_padded_fixed(date.0 as nat, 4);
    text::law_padding_keeps_the_number(date.0 as nat, 4);
    lemma_two_digits(date.1 as nat);
    lemma_two_digits(date.2 as nat);
    lemma_two_digits(hour_of(secs));
    lemma_two_digits(minute_of(secs));
    lemma_two_digits(second_of(secs));
    let (m, d) = (text::zero_padded(date.1 as nat, 2), text::zero_padded(date.2 as nat, 2));
    let (h, n) = (text::zero_padded(hour_of(secs), 2), text::zero_padded(minute_of(secs), 2));
    let s = text::zero_padded(second_of(secs), 2);
    let iso = iso_text(secs);
    assert(iso.subrange(0, 4) =~= y);
    assert(iso.subrange(5, 7) =~= m);
    assert(iso.subrange(8, 10) =~= d);
    assert(iso.subrange(11, 13) =~= h);
    assert(iso.subrange(14, 16) =~= n);
    assert(iso.subrange(17, 19) =~= s);
    let stamp = stamp_text(secs);
    assert(stamp.subrange(0, 4) =~= y);
    assert(stamp.subrange(5, 7) =~= m);
    assert(stamp.subrange(8, 10) =~= d);
    assert(stamp.subrange(11, 13) =~= h);
    assert(stamp.subrange(13, 15) =~= n);
}

/// A file of a run holds the JSON text of what is written, and a line break.
pub proof fn law_files_hold_the_value(value: json::Json)
    ensures
        json::json_pretty(value) matches Some(text) ==> file_text(value) == text.push('\n'),
{
    reveal_strlit("\n");
    if let Some(text) = json::json_pretty(value) {
        assert(text + "\n"@ =~= text.push('\n'));
    }
}

/// The id of a run is the last name of its directory.
pub proof fn law_run_id_names_the_directory(dir: RunDir)
    ensures
        dir.names().len() > 0 ==> dir.id() == dir.names().last(),
        dir.names().len() == dir.path@.len(),
{
}

/// Letters and digits are those of ASCII: `0` to `9`, `A` to `Z` and `a` to `z`.
pub proof fn law_letters_and_digits(c: char)
    ensures
        is_alphanumeric(c) <==> 0x30 <= c as u32 <= 0x39 || 0x41 <= c as u32 <= 0x5A || 0x61
            <= c as u32 <= 0x7A,
{
}

} // verus!
