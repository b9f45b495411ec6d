//! Text: decimal numbers, ordering, splitting, trimming and joining, over the
//! sequence of characters that a string holds.
use vstd::prelude::*;
use vstd::string::StringExecFns;

verus! {

// ---------------------------------------------------------------------------
// What the standard library is relied on for.
// ---------------------------------------------------------------------------

/// The lower-case equivalent of a text, as Unicode defines it: what
/// `str::to_lowercase` returns.
pub uninterp spec fn lowercase(text: Seq<char>) -> Seq<char>;

/// Whether a character has the Unicode property `White_Space`.
pub open spec fn white_space(c: char) -> bool {
    let n = c as u32;
    ||| 0x09 <= n <= 0x0D
    ||| n == 0x20
    ||| n == 0x85
    ||| n == 0xA0
    ||| n == 0x1680
    ||| 0x2000 <= n <= 0x200A
    ||| n == 0x2028
    ||| n == 0x2029
    ||| n == 0x202F
    ||| n == 0x205F
    ||| n == 0x3000
}

/// Whether a text holds only characters of ASCII.
pub open spec fn is_ascii(text: Seq<char>) -> bool {
    forall|i: int| 0 <= i < text.len() ==> (#[trigger] text[i] as u32) < 128
}

/// Whether a text holds a letter of `A` to `Z`.
pub open spec fn has_upper(text: Seq<char>) -> bool {
    exists|i: int| 0 <= i < text.len() && 'A' <= #[trigger] text[i] <= 'Z'
}

/// `String::push` appends one character to the end of a string.
pub assume_specification[ String::push ](s: &mut String, c: char)
    ensures
        final(s)@ == old(s)@.push(c),
;

/// `str::to_lowercase` is a function of the text alone. Of a text of ASCII it
/// changes the letters `A` to `Z`, and it leaves none of these in any text; what
/// it makes of other characters is not spelled out.
pub assume_specification[ str::to_lowercase ](s: &str) -> (r: String)
    ensures
        r@ == lowercase(s@),
        is_ascii(s@) ==> r@ == ascii_lower(s@),
        !has_upper(r@),
;

/// `char::is_whitespace` tells whether a character has the Unicode property
/// `White_Space`.
pub assume_specification[ char::is_whitespace ](c: char) -> (r: bool)
    ensures
        r == white_space(c),
;

// ---------------------------------------------------------------------------
// Lists of strings.
// ---------------------------------------------------------------------------

/// The texts that a list of strings holds.
pub open spec fn texts(list: Seq<String>) -> Seq<Seq<char>> {
    Seq::new(list.len(), |i: int| list[i]@)
}

/// The characters of `s`.
pub fn chars_of(s: &str) -> (v: Vec<char>)
    ensures
        v@ == s@,
{
    let mut v: Vec<char> = Vec::new();
    for c in it: s.chars()
        invariant
            it.seq() == s@,
            v@ == s@.take(it.index()),
    {
        v.push(c);
        assert(s@.take(it.index() + 1) =~= s@.take(it.index()).push(c));
    }
    assert(s@.take(s@.len() as int) =~= s@);
    v
}

/// The string of the characters `v[from..to]`.
pub fn string_of(v: &Vec<char>, from: usize, to: usize) -> (r: String)
    requires
        from <= to <= v@.len(),
    ensures
        r@ == v@.subrange(from as int, to as int),
{
    let mut r = String::new();
    let mut i: usize = from;
    while i < to
        invariant
            from <= i <= to <= v@.len(),
            r@ == v@.subrange(from as int, i as int),
        decreases to - i,
    {
        r.push(v[i]);
        i += 1;
        assert(v@.subrange(from as int, i as int) =~= v@.subrange(from as int, i - 1).push(
            v@[i - 1],
        ));
    }
    r
}

/// Whether two strings hold the same text.
pub fn same(a: &str, b: &str) -> (r: bool)
    ensures
        r == (a@ == b@),
{
    a.to_string() == b.to_string()
}

/// A copy of a list of strings.
pub fn copy_strings(list: &Vec<String>) -> (r: Vec<String>)
    ensures
        r@ == list@,
{
    let mut r: Vec<String> = Vec::new();
    let mut i: usize = 0;
    while i < list.len()
        invariant
            i <= list@.len(),
            r@ == list@.take(i as int),
        decreases list@.len() - i,
    {
        r.push(list[i].clone());
        i += 1;
        assert(list@.take(i as int) =~= list@.take(i - 1).push(list@[i - 1]));
    }
    assert(list@.take(i as int) =~= list@);
    r
}

/// The first place at which `list` holds `wanted`, if it does.
pub fn position(list: &Vec<String>, wanted: &str) -> (r: Option<usize>)
    ensures
        match r {
            Some(i) => i < list@.len() && list@[i as int]@ == wanted@ && forall|j: int|
                0 <= j < i ==> #[trigger] list@[j]@ != wanted@,
            None => forall|j: int| 0 <= j < list@.len() ==> #[trigger] list@[j]@ != wanted@,
        },
{
    let mut i: usize = 0;
    while i < list.len()
        invariant
            i <= list@.len(),
            forall|j: int| 0 <= j < i ==> #[trigger] list@[j]@ != wanted@,
        decreases list@.len() - i,
    {
        if same(list[i].as_str(), wanted) {
            return Some(i);
        }
        i += 1;
    }
    None
}

// ---------------------------------------------------------------------------
// Decimal numbers.
// ---------------------------------------------------------------------------

/// The character of the decimal digit `d`.
pub open spec fn digit(d: int) -> char {
    (48 + d) as char
}

/// `n` in decimal, without leading zeros.
pub open spec fn decimal(n: nat) -> Seq<char>
    decreases n,
{
    if n < 10 {
        seq![digit(n as int)]
    } else {
        decimal(n / 10).push(digit((n % 10) as int))
    }
}

/// `n` in decimal, with zeros in front up to `width` characters.
pub open spec fn zero_padded(n: nat, width: nat) -> Seq<char> {
    let d = decimal(n);
    Seq::new(
        if d.len() < width {
            (width - d.len()) as nat
        } else {
            0
        },
        |i: int| '0',
    ) + d
}

/// `n` in decimal in at least `width` characters: the sign first, then zeros.
pub open spec fn signed_padded(n: int, width: nat) -> Seq<char> {
    if n < 0 {
        seq!['-'] + zero_padded(
            (-n) as nat,
            if width > 0 {
                (width - 1) as nat
            } else {
                0
            },
        )
    } else {
        zero_padded(n as nat, width)
    }
}

/// The last `width` decimal digits of `n`.
pub open spec fn fixed_digits(n: nat, width: nat) -> Seq<char>
    decreases width,
{
    if width == 0 {
        Seq::empty()
    } else {
        fixed_digits(n / 10, (width - 1) as nat).push(digit((n % 10) as int))
    }
}

/// Ten to the power `k`.
pub open spec fn ten_to(k: nat) -> nat
    decreases k,
{
    if k == 0 {
        1
    } else {
        10 * ten_to((k - 1) as nat)
    }
}

fn push_digit(out: &mut String, d: u64)
    requires
        d < 10,
    ensures
        final(out)@ == old(out)@.push(digit(d as int)),
{
    let code: u8 = 48 + d as u8;
    out.push(code as char);
}

/// Appends `n` in decimal.
pub fn push_decimal(out: &mut String, n: u64)
    ensures
        final(out)@ == old(out)@ + decimal(n as nat),
    decreases n,
{
    if n < 10 {
        push_digit(out, n);
        assert(out@ =~= old(out)@ + decimal(n as nat));
    } else {
        push_decimal(out, n / 10);
        push_digit(out, n % 10);
        assert(out@ =~= old(out)@ + decimal(n as nat));
    }
}

/// `n` in decimal.
pub fn decimal_string(n: u64) -> (r: String)
    ensures
        r@ == decimal(n as nat),
{
    let mut r = String::new();
    push_decimal(&mut r, n);
    assert(r@ =~= decimal(n as nat));
    r
}

/// How many characters `n` takes in decimal.
fn decimal_len(n: u64) -> (r: usize)
    ensures
        r == decimal(n as nat).len(),
        1 <= r <= 20,
{
    let mut left: u64 = n;
    let mut r: usize = 1;
    assert(left as int * ten_to(0) == left) by (nonlinear_arith)
        requires
            ten_to(0) == 1,
    ;
    while left >= 10
        invariant
            decimal(n as nat).len() == decimal(left as nat).len() + (r - 1),
            1 <= r <= 20,
            left as int * ten_to((r - 1) as nat) <= n,
        decreases left,
    {
        proof {
            lemma_ten_to(r as nat);
            let p: int = ten_to((r - 1) as nat) as int;
            let q: int = (left / 10) as int;
            assert(q * (10 * p) == (10 * q) * p) by (nonlinear_arith);
            assert((10 * q) * p <= left as int * p) by (nonlinear_arith)
                requires
                    10 * q <= left as int,
                    p >= 0,
            ;
            if r == 20 {
                reveal_with_fuel(ten_to, 21);
                assert(left as int * p > 0xffff_ffff_ffff_ffff) by (nonlinear_arith)
                    requires
                        left >= 10,
                        p == 10_000_000_000_000_000_000,
                ;
            }
        }
        left = left / 10;
        r += 1;
    }
    r
}

pub proof fn lemma_ten_to(k: nat)
    ensures
        ten_to(k) >= 1,
        k > 0 ==> ten_to(k) == 10 * ten_to((k - 1) as nat),
    decreases k,
{
    if k > 0 {
        lemma_ten_to((k - 1) as nat);
    }
}

/// Appends `n` in decimal, with zeros in front up to `width` characters.
pub fn push_padded(out: &mut String, n: u64, width: usize)
    ensures
        final(out)@ == old(out)@ + zero_padded(n as nat, width as nat),
{
    let len = decimal_len(n);
    let zeros: usize = if len < width {
        width - len
    } else {
        0
    };
    let ghost start = out@;
    let mut i: usize = 0;
    while i < zeros
        invariant
            i <= zeros,
            out@ == start + Seq::new(i as nat, |j: int| '0'),
        decreases zeros - i,
    {
        out.push('0');
        i += 1;
        assert(out@ =~= start + Seq::new(i as nat, |j: int| '0'));
    }
    push_decimal(out, n);
    assert(out@ =~= start + zero_padded(n as nat, width as nat));
}

/// Appends `n` in decimal in at least `width` characters: the sign first, then
/// zeros.
pub fn push_signed_padded(out: &mut String, n: i64, width: usize)
    ensures
        final(out)@ == old(out)@ + signed_padded(n as int, width as nat),
{
    if n < 0 {
        out.push('-');
        let magnitude: u64 = (0 - n as i128) as u64;
        let rest: usize = if width > 0 {
            width - 1
        } else {
            0
        };
        push_padded(out, magnitude, rest);
        assert(out@ =~= old(out)@ + signed_padded(n as int, width as nat));
    } else {
        push_padded(out, n as u64, width);
    }
}


// ---------------------------------------------------------------------------
// Facts about decimal numbers.
// ---------------------------------------------------------------------------

/// A digit's character determines the digit.
pub proof fn lemma_digit_injective(a: int, b: int)
    requires
        0 <= a < 10,
        0 <= b < 10,
        digit(a) == digit(b),
    ensures
        a == b,
{
}

/// Two different numbers never read the same in decimal.
pub proof fn lemma_decimal_injective(a: nat, b: nat)
    requires
        decimal(a) == decimal(b),
    ensures
        a == b,
    decreases a,
{
    lemma_decimal_chars(a);
    lemma_decimal_chars(b);
    if a < 10 && b < 10 {
        let da = seq![digit(a as int)];
        let db = seq![digit(b as int)];
        assert(decimal(a) == da);
        assert(decimal(b) == db);
        assert(da[0] == digit(a as int));
        assert(db[0] == digit(b as int));
        lemma_digit_injective(a as int, b as int);
    } else if a < 10 {
        lemma_decimal_chars(b / 10);
        assert(decimal(a).len() == 1);
        assert(decimal(b).len() >= 2);
    } else if b < 10 {
        lemma_decimal_chars(a / 10);
        assert(decimal(b).len() == 1);
        assert(decimal(a).len() >= 2);
    } else {
        assert(decimal(a).last() == digit((a % 10) as int));
        assert(decimal(b).last() == digit((b % 10) as int));
        lemma_digit_injective((a % 10) as int, (b % 10) as int);
        assert(decimal(a).drop_last() =~= decimal(a / 10));
        assert(decimal(b).drop_last() =~= decimal(b / 10));
        lemma_decimal_injective(a / 10, b / 10);
    }
}

/// A number in decimal is not empty and holds nothing but digits.
pub proof fn lemma_decimal_chars(n: nat)
    ensures
        decimal(n).len() >= 1,
        forall|i: int| 0 <= i < decimal(n).len() ==> '0' <= #[trigger] decimal(n)[i] <= '9',
    decreases n,
{
    if n >= 10 {
        lemma_decimal_chars(n / 10);
    }
}

/// A number that fits in `width` digits is written in exactly `width`
/// characters when it is padded to that width.
pub proof fn lemma_zero_padded_fixed(n: nat, width: nat)
    requires
        n < ten_to(width),
        width >= 1,
    ensures
        zero_padded(n, width) == fixed_digits(n, width),
        fixed_digits(n, width).len() == width,
    decreases width,
{
    if width == 1 {
        reveal_with_fuel(ten_to, 2);
        reveal_with_fuel(fixed_digits, 2);
        assert(zero_padded(n, width) =~= fixed_digits(n, width));
    } else {
        let w = (width - 1) as nat;
        lemma_ten_to(width);
        lemma_zero_padded_fixed(n / 10, w);
        assert(fixed_digits(n, width) == fixed_digits(n / 10, w).push(digit((n % 10) as int)));
        if n < 10 {
            assert(decimal(n / 10) == seq![digit(0)]);
            assert(zero_padded(n, width) =~= zero_padded(n / 10, w).push(digit((n % 10) as int)));
        } else {
            assert(zero_padded(n, width) =~= zero_padded(n / 10, w).push(digit((n % 10) as int)));
        }
    }
}

// ---------------------------------------------------------------------------
// The order of texts.
// ---------------------------------------------------------------------------

/// Whether `a` comes before `b`: at the first place where they differ `a` has
/// the smaller character, or `a` ends there.
pub open spec fn text_less(a: Seq<char>, b: Seq<char>) -> bool
    decreases b.len(),
{
    if b.len() == 0 {
        false
    } else if a.len() == 0 {
        true
    } else if a[0] != b[0] {
        a[0] < b[0]
    } else {
        text_less(a.drop_first(), b.drop_first())
    }
}

/// `a` comes before `b` or is `b`.
pub open spec fn text_le(a: Seq<char>, b: Seq<char>) -> bool {
    a == b || text_less(a, b)
}

pub proof fn lemma_text_less_irreflexive(a: Seq<char>)
    ensures
        !text_less(a, a),
    decreases a.len(),
{
    if a.len() > 0 {
        lemma_text_less_irreflexive(a.drop_first());
    }
}

pub proof fn lemma_text_less_transitive(a: Seq<char>, b: Seq<char>, c: Seq<char>)
    requires
        text_less(a, b),
        text_less(b, c),
    ensures
        text_less(a, c),
    decreases c.len(),
{
    if a.len() > 0 && a[0] == b[0] && b[0] == c[0] {
        lemma_text_less_transitive(a.drop_first(), b.drop_first(), c.drop_first());
    }
}

pub proof fn lemma_text_less_total(a: Seq<char>, b: Seq<char>)
    ensures
        a == b || text_less(a, b) || text_less(b, a),
    decreases a.len(),
{
    if a.len() > 0 && b.len() > 0 {
        if a[0] == b[0] {
            lemma_text_less_total(a.drop_first(), b.drop_first());
            if a.drop_first() == b.drop_first() {
                assert(a =~= seq![a[0]] + a.drop_first());
                assert(b =~= seq![b[0]] + b.drop_first());
            }
        }
    } else if a.len() == 0 && b.len() == 0 {
        assert(a =~= b);
    }
}

/// A common beginning does not change the order.
pub proof fn lemma_text_less_prefix(p: Seq<char>, a: Seq<char>, b: Seq<char>)
    ensures
        text_less(p + a, p + b) == text_less(a, b),
    decreases p.len(),
{
    if p.len() == 0 {
        assert(p + a =~= a);
        assert(p + b =~= b);
    } else {
        lemma_text_less_prefix(p.drop_first(), a, b);
        assert((p + a).drop_first() =~= p.drop_first() + a);
        assert((p + b).drop_first() =~= p.drop_first() + b);
    }
}

/// Where beginnings of one length differ in order, what follows does not
/// matter.
pub proof fn lemma_text_less_heads(p: Seq<char>, q: Seq<char>, a: Seq<char>, b: Seq<char>)
    requires
        p.len() == q.len(),
        text_less(p, q),
    ensures
        text_less(p + a, q + b),
    decreases p.len(),
{
    assert(p.len() > 0);
    assert((p + a)[0] == p[0]);
    assert((q + b)[0] == q[0]);
    if p[0] == q[0] {
        lemma_text_less_heads(p.drop_first(), q.drop_first(), a, b);
        assert((p + a).drop_first() =~= p.drop_first() + a);
        assert((q + b).drop_first() =~= q.drop_first() + b);
    }
}

/// Numbers written in the same count of digits are ordered as their texts.
pub proof fn lemma_fixed_digits_ordered(a: nat, b: nat, width: nat)
    requires
        a < b < ten_to(width),
    ensures
        text_less(fixed_digits(a, width), fixed_digits(b, width)),
    decreases width,
{
    if width > 0 {
        let w = (width - 1) as nat;
        lemma_ten_to(width);
        let x = fixed_digits(a / 10, w);
        let y = fixed_digits(b / 10, w);
        lemma_fixed_digits_len(a / 10, w);
        lemma_fixed_digits_len(b / 10, w);
        let c = seq![digit((a % 10) as int)];
        let d = seq![digit((b % 10) as int)];
        assert(fixed_digits(a, width) =~= x + c);
        assert(fixed_digits(b, width) =~= y + d);
        if a / 10 < b / 10 {
            lemma_fixed_digits_ordered(a / 10, b / 10, w);
            lemma_text_less_heads(x, y, c, d);
        } else {
            assert(a / 10 == b / 10);
            lemma_text_less_prefix(x, c, d);
            assert(text_less(c, d));
        }
    }
}

pub proof fn lemma_fixed_digits_len(n: nat, width: nat)
    ensures
        fixed_digits(n, width).len() == width,
    decreases width,
{
    if width > 0 {
        lemma_fixed_digits_len(n / 10, (width - 1) as nat);
    }
}

/// Whether `a` comes before `b`.
pub fn less(a: &str, b: &str) -> (r: bool)
    ensures
        r == text_less(a@, b@),
{
    let x = chars_of(a);
    let y = chars_of(b);
    let mut i: usize = 0;
    assert(x@.skip(0) =~= x@);
    assert(y@.skip(0) =~= y@);
    while i < x.len() && i < y.len()
        invariant
            x@ == a@,
            y@ == b@,
            i <= x@.len(),
            i <= y@.len(),
            text_less(a@, b@) == text_less(x@.skip(i as int), y@.skip(i as int)),
        decreases x@.len() - i,
    {
        if x[i] != y[i] {
            return x[i] < y[i];
        }
        assert(x@.skip(i as int).drop_first() =~= x@.skip(i + 1));
        assert(y@.skip(i as int).drop_first() =~= y@.skip(i + 1));
        i += 1;
    }
    i < y.len()
}

// ---------------------------------------------------------------------------
// Splitting, trimming, joining.
// ---------------------------------------------------------------------------

/// The pieces of `s` between the separators.
pub open spec fn split_on(s: Seq<char>, separator: char) -> Seq<Seq<char>>
    decreases s.len(),
{
    if s.len() == 0 {
        seq![Seq::<char>::empty()]
    } else {
        let before = split_on(s.drop_last(), separator);
        if s.last() == separator {
            before.push(Seq::empty())
        } else {
            before.drop_last().push(before.last().push(s.last()))
        }
    }
}

/// The texts one after the other, with the separator between them.
pub open spec fn join(parts: Seq<Seq<char>>, separator: Seq<char>) -> Seq<char>
    decreases parts.len(),
{
    if parts.len() == 0 {
        Seq::empty()
    } else if parts.len() == 1 {
        parts[0]
    } else {
        join(parts.drop_last(), separator) + separator + parts.last()
    }
}

/// `s` without the white space that it begins with.
pub open spec fn trim_start(s: Seq<char>) -> Seq<char>
    decreases s.len(),
{
    if s.len() > 0 && white_space(s[0]) {
        trim_start(s.drop_first())
    } else {
        s
    }
}

/// `s` without the white space that it ends with.
pub open spec fn trim_end(s: Seq<char>) -> Seq<char>
    decreases s.len(),
{
    if s.len() > 0 && white_space(s.last()) {
        trim_end(s.drop_last())
    } else {
        s
    }
}

/// `s` without the white space at its ends.
pub open spec fn trim(s: Seq<char>) -> Seq<char> {
    trim_end(trim_start(s))
}

/// `c`, or its lower-case letter where it is one of `A` to `Z`.
pub open spec fn ascii_lower_char(c: char) -> char {
    if 'A' <= c <= 'Z' {
        (c as u32 + 32) as char
    } else {
        c
    }
}

/// `c`, or its upper-case letter where it is one of `a` to `z`.
pub open spec fn ascii_upper_char(c: char) -> char {
    if 'a' <= c <= 'z' {
        (c as u32 - 32) as char
    } else {
        c
    }
}

/// `s` with every letter of `a` to `z` in upper case.
pub open spec fn ascii_upper(s: Seq<char>) -> Seq<char> {
    Seq::new(s.len(), |i: int| ascii_upper_char(s[i]))
}

/// `s` with every letter of `A` to `Z` in lower case.
pub open spec fn ascii_lower(s: Seq<char>) -> Seq<char> {
    Seq::new(s.len(), |i: int| ascii_lower_char(s[i]))
}

/// A text has one piece at least.
pub proof fn lemma_split_nonempty(s: Seq<char>, separator: char)
    ensures
        split_on(s, separator).len() >= 1,
    decreases s.len(),
{
    if s.len() > 0 {
        lemma_split_nonempty(s.drop_last(), separator);
    }
}

/// Trimming takes away the white space at the ends of a text, and nothing else.
pub proof fn law_trim(s: Seq<char>) -> (ends: (int, int))
    ensures
        0 <= ends.0 <= ends.1 <= s.len(),
        trim(s) == s.subrange(ends.0, ends.1),
        forall|i: int|
            0 <= i < s.len() && (i < ends.0 || ends.1 <= i) ==> white_space(#[trigger] s[i]),
        ends.0 < ends.1 ==> !white_space(s[ends.0]) && !white_space(s[ends.1 - 1]),
        trim(s).len() == 0 <==> forall|i: int| 0 <= i < s.len() ==> white_space(#[trigger] s[i]),
{
    let from = lemma_trim_start(s);
    let rest = s.skip(from);
    let to = lemma_trim_end(rest);
    assert(trim(s) =~= s.subrange(from, from + to));
    assert forall|i: int| 0 <= i < s.len() && (i < from || from + to <= i) implies white_space(
        #[trigger] s[i],
    ) by {
        if from + to <= i {
            assert(rest[i - from] == s[i]);
        }
    }
    if to > 0 {
        assert(rest[0] == s[from]);
        assert(rest[to - 1] == s[from + to - 1]);
    }
    (from, from + to)
}

proof fn lemma_trim_start(s: Seq<char>) -> (from: int)
    ensures
        0 <= from <= s.len(),
        trim_start(s) == s.skip(from),
        forall|i: int| 0 <= i < from ==> white_space(#[trigger] s[i]),
        from < s.len() ==> !white_space(s[from]),
    decreases s.len(),
{
    if s.len() > 0 && white_space(s[0]) {
        let from = lemma_trim_start(s.drop_first());
        assert(s.drop_first().skip(from) =~= s.skip(from + 1));
        assert forall|i: int| 0 <= i < from + 1 implies white_space(#[trigger] s[i]) by {
            if i > 0 {
                assert(s.drop_first()[i - 1] == s[i]);
            }
        }
        from + 1
    } else {
        assert(s.skip(0) =~= s);
        0
    }
}

proof fn lemma_trim_end(s: Seq<char>) -> (to: int)
    ensures
        0 <= to <= s.len(),
        trim_end(s) == s.take(to),
        forall|i: int| to <= i < s.len() ==> white_space(#[trigger] s[i]),
        to > 0 ==> !white_space(s[to - 1]),
    decreases s.len(),
{
    if s.len() > 0 && white_space(s.last()) {
        let to = lemma_trim_end(s.drop_last());
        assert(s.drop_last().take(to) =~= s.take(to));
        assert forall|i: int| to <= i < s.len() implies white_space(#[trigger] s[i]) by {
            if i < s.len() - 1 {
                assert(s.drop_last()[i] == s[i]);
            }
        }
        to
    } else {
        assert(s.take(s.len() as int) =~= s);
        s.len() as int
    }
}

/// Joining the pieces of a text gives the text back.
pub proof fn lemma_split_join(s: Seq<char>, separator: char)
    ensures
        join(split_on(s, separator), seq![separator]) == s,
    decreases s.len(),
{
    let sep = seq![separator];
    let parts = split_on(s, separator);
    if s.len() == 0 {
        assert(join(parts, sep) =~= s);
    } else {
        let before = split_on(s.drop_last(), separator);
        lemma_split_nonempty(s.drop_last(), separator);
        lemma_split_join(s.drop_last(), separator);
        if s.last() == separator {
            assert(parts.drop_last() =~= before);
            assert(join(parts, sep) =~= s.drop_last() + sep + Seq::<char>::empty());
            assert(join(parts, sep) =~= s);
        } else {
            assert(parts.drop_last() =~= before.drop_last());
            assert(parts.last() == before.last().push(s.last()));
            assert(join(parts, sep) =~= join(before, sep).push(s.last()));
            assert(join(parts, sep) =~= s);
        }
    }
}

/// No piece of a text holds the separator.
pub proof fn lemma_split_pieces(s: Seq<char>, separator: char)
    ensures
        forall|i: int|
            0 <= i < split_on(s, separator).len() ==> !(#[trigger] split_on(
                s,
                separator,
            )[i]).contains(separator),
    decreases s.len(),
{
    if s.len() > 0 {
        lemma_split_nonempty(s.drop_last(), separator);
        lemma_split_pieces(s.drop_last(), separator);
        let before = split_on(s.drop_last(), separator);
        let parts = split_on(s, separator);
        assert forall|i: int| 0 <= i < parts.len() implies !(#[trigger] parts[i]).contains(
            separator,
        ) by {
            if i < before.len() {
                assert(!before[i].contains(separator));
                if parts[i].contains(separator) {
                    let k = choose|k: int| 0 <= k < parts[i].len() && parts[i][k] == separator;
                    if k < before[i].len() {
                        assert(before[i][k] == separator);
                    }
                }
            }
        }
    }
}

/// A text without the separator is one piece.
pub proof fn lemma_split_none(s: Seq<char>, separator: char)
    requires
        !s.contains(separator),
    ensures
        split_on(s, separator) == seq![s],
    decreases s.len(),
{
    if s.len() == 0 {
        assert(s =~= Seq::<char>::empty());
    } else {
        let front = s.drop_last();
        assert(s.last() == s[s.len() - 1]);
        if front.contains(separator) {
            let k = choose|k: int| 0 <= k < front.len() && front[k] == separator;
            assert(s[k] == separator);
        }
        lemma_split_none(front, separator);
        let before = split_on(front, separator);
        assert(before.last().push(s.last()) =~= s);
        assert(split_on(s, separator) =~= seq![s]);
    }
}

/// The pieces of `s` between the separators.
pub fn split(s: &str, separator: char) -> (r: Vec<String>)
    ensures
        texts(r@) == split_on(s@, separator),
{
    let v = chars_of(s);
    let mut r: Vec<String> = Vec::new();
    let mut piece = String::new();
    let mut i: usize = 0;
    assert(texts(r@).push(piece@) =~= split_on(v@.take(0), separator));
    while i < v.len()
        invariant
            v@ == s@,
            i <= v@.len(),
            texts(r@).push(piece@) == split_on(v@.take(i as int), separator),
        decreases v@.len() - i,
    {
        let c = v[i];
        let ghost before = texts(r@).push(piece@);
        assert(v@.take(i + 1).drop_last() =~= v@.take(i as int));
        assert(v@.take(i + 1).last() == c);
        if c == separator {
            r.push(piece);
            piece = String::new();
            assert(texts(r@).push(piece@) =~= before.push(Seq::empty()));
        } else {
            piece.push(c);
            assert(texts(r@).push(piece@) =~= before.drop_last().push(before.last().push(c)));
        }
        i += 1;
    }
    r.push(piece);
    assert(v@.take(i as int) =~= v@);
    assert(texts(r@) =~= split_on(s@, separator));
    r
}

/// `s` without the white space at its ends.
pub fn trimmed(s: &str) -> (r: String)
    ensures
        r@ == trim(s@),
{
    let v = chars_of(s);
    let mut from: usize = 0;
    assert(v@.skip(0) =~= v@);
    while from < v.len() && v[from].is_whitespace()
        invariant
            v@ == s@,
            from <= v@.len(),
            trim_start(s@) == trim_start(v@.skip(from as int)),
        decreases v@.len() - from,
    {
        assert(v@.skip(from as int).drop_first() =~= v@.skip(from + 1));
        from += 1;
    }
    assert(trim_start(s@) == v@.skip(from as int));
    let mut to: usize = v.len();
    assert(v@.subrange(from as int, to as int) =~= v@.skip(from as int));
    while to > from && v[to - 1].is_whitespace()
        invariant
            v@ == s@,
            from <= to <= v@.len(),
            trim(s@) == trim_end(v@.subrange(from as int, to as int)),
        decreases to,
    {
        assert(v@.subrange(from as int, to as int).drop_last() =~= v@.subrange(
            from as int,
            to - 1,
        ));
        to -= 1;
    }
    string_of(&v, from, to)
}

/// `s` with every letter of `A` to `Z` in lower case.
pub fn ascii_lowered(s: &str) -> (r: String)
    ensures
        r@ == ascii_lower(s@),
{
    let v = chars_of(s);
    let mut r = String::new();
    let mut i: usize = 0;
    while i < v.len()
        invariant
            v@ == s@,
            i <= v@.len(),
            r@ == ascii_lower(v@.take(i as int)),
        decreases v@.len() - i,
    {
        let c = v[i];
        if 'A' <= c && c <= 'Z' {
            let code: u8 = c as u8 + 32;
            r.push(code as char);
        } else {
            r.push(c);
        }
        i += 1;
        assert(r@ =~= ascii_lower(v@.take(i as int)));
    }
    assert(v@.take(i as int) =~= v@);
    r
}

/// The strings one after the other, with the separator between them.
pub fn joined(parts: &Vec<String>, separator: &str) -> (r: String)
    ensures
        r@ == join(texts(parts@), separator@),
{
    let mut r = String::new();
    let mut i: usize = 0;
    let ghost all = texts(parts@);
    while i < parts.len()
        invariant
            all == texts(parts@),
            i <= parts@.len(),
            r@ == join(all.take(i as int), separator@),
        decreases parts@.len() - i,
    {
        if i > 0 {
            r.append(separator);
        }
        r.append(parts[i].as_str());
        i += 1;
        assert(all.take(i as int).drop_last() =~= all.take(i - 1));
        assert(r@ =~= join(all.take(i as int), separator@));
    }
    assert(all.take(i as int) =~= all);
    r
}

// ---------------------------------------------------------------------------
// Sorting.
// ---------------------------------------------------------------------------

/// Whether texts stand in order.
pub open spec fn in_order(list: Seq<Seq<char>>) -> bool {
    forall|i: int, j: int|
        0 <= i < j < list.len() ==> text_le(#[trigger] list[i], #[trigger] list[j])
}

/// Whether one list is the other in order.
pub open spec fn is_sorted_from(sorted: Seq<Seq<char>>, list: Seq<Seq<char>>) -> bool {
    in_order(sorted) && sorted.to_multiset() == list.to_multiset()
}

/// The strings in order.
pub fn sorted(list: &Vec<String>) -> (r: Vec<String>)
    ensures
        is_sorted_from(texts(r@), texts(list@)),
{
    let mut r: Vec<String> = Vec::new();
    let mut i: usize = 0;
    assert(texts(r@) =~= texts(list@).take(0));
    while i < list.len()
        invariant
            i <= list@.len(),
            in_order(texts(r@)),
            texts(r@).to_multiset() == texts(list@).take(i as int).to_multiset(),
        decreases list@.len() - i,
    {
        let ghost before = texts(r@);
        let ghost s = list@[i as int]@;
        let mut at: usize = r.len();
        while at > 0 && less(list[i].as_str(), r[at - 1].as_str())
            invariant
                at <= r@.len(),
                i < list@.len(),
                s == list@[i as int]@,
                before == texts(r@),
                forall|k: int| at <= k < r@.len() ==> text_less(s, #[trigger] before[k]),
            decreases at,
        {
            assert(before[at - 1] == r@[at - 1]@);
            at -= 1;
        }
        proof {
            if at > 0 {
                assert(before[at - 1] == r@[at - 1]@);
                lemma_text_less_total(before[at - 1], s);
            }
        }
        r.insert(at, list[i].clone());
        proof {
            let after = texts(r@);
            assert(after =~= before.insert(at as int, s));
            vstd::seq_lib::to_multiset_insert(before, at as int, s);
            assert(texts(list@).take(i + 1) =~= texts(list@).take(i as int).push(s));
            broadcast use vstd::seq_lib::group_to_multiset_ensures;

            assert forall|j: int, k: int| 0 <= j < k < after.len() implies text_le(
                #[trigger] after[j],
                #[trigger] after[k],
            ) by {
                if j < at && k < at {
                    assert(text_le(before[j], before[k]));
                } else if j < at && k == at {
                    if j < at - 1 {
                        assert(text_le(before[j], before[at - 1]));
                        if before[j] != before[at - 1] && before[at - 1] != s {
                            lemma_text_less_transitive(before[j], before[at - 1], s);
                        }
                    }
                } else if j < at {
                    assert(text_le(before[j], before[k - 1]));
                } else if j == at {
                    assert(text_less(s, before[k - 1]));
                } else {
                    assert(text_le(before[j - 1], before[k - 1]));
                }
            }
        }
        i += 1;
    }
    assert(texts(list@).take(i as int) =~= texts(list@));
    r
}

// ---------------------------------------------------------------------------
// Laws.
// ---------------------------------------------------------------------------

/// The number that decimal digits stand for.
pub open spec fn value_of(digits: Seq<char>) -> int
    decreases digits.len(),
{
    if digits.len() == 0 {
        0
    } else {
        10 * value_of(digits.drop_last()) + (digits.last() as u32 - '0' as u32)
    }
}

/// A number in decimal reads back as the number, and only zero begins with a zero.
pub proof fn law_decimal_reads_back(n: nat)
    ensures
        value_of(decimal(n)) == n,
        decimal(n).len() >= 1,
        n > 0 ==> decimal(n)[0] != '0',
        n == 0 ==> decimal(n) == seq!['0'],
        forall|i: int| 0 <= i < decimal(n).len() ==> '0' <= #[trigger] decimal(n)[i] <= '9',
    decreases n,
{
    lemma_decimal_chars(n);
    let d = decimal(n);
    if n < 10 {
        assert(d.drop_last() =~= Seq::<char>::empty());
        assert(value_of(d.drop_last()) == 0);
        assert(n == 0 ==> d =~= seq!['0']);
    } else {
        law_decimal_reads_back(n / 10);
        assert(d.drop_last() =~= decimal(n / 10));
        assert(d[0] == decimal(n / 10)[0]);
    }
}

proof fn lemma_zeros_in_front(zeros: Seq<char>, d: Seq<char>)
    requires
        forall|i: int| 0 <= i < zeros.len() ==> #[trigger] zeros[i] == '0',
    ensures
        value_of(zeros + d) == value_of(d),
    decreases d.len(), zeros.len(),
{
    if d.len() > 0 {
        lemma_zeros_in_front(zeros, d.drop_last());
        assert((zeros + d).drop_last() =~= zeros + d.drop_last());
    } else {
        assert(zeros + d =~= zeros);
        if zeros.len() > 0 {
            lemma_zeros_in_front(zeros.drop_last(), d);
            assert(zeros.drop_last() + d =~= zeros.drop_last());
            assert(zeros.last() == zeros[zeros.len() - 1]);
        }
    }
}

/// Padding a number keeps what it stands for, and brings it to the width that was
/// asked for unless it is longer.
pub proof fn law_padding_keeps_the_number(n: nat, width: nat)
    ensures
        value_of(zero_padded(n, width)) == n,
        zero_padded(n, width).len() == if decimal(n).len() < width {
            width
        } else {
            decimal(n).len()
        },
        signed_padded(n as int, width) == zero_padded(n, width),
        n > 0 ==> signed_padded(-n, width).len() == zero_padded(n, width).len() || width
            <= decimal(n).len(),
        n > 0 ==> signed_padded(-n, width)[0] == '-' && value_of(
            signed_padded(-n, width).drop_first(),
        ) == n,
{
    law_decimal_reads_back(n);
    let d = decimal(n);
    let zeros = zero_padded(n, width).take(zero_padded(n, width).len() - d.len());
    assert(zero_padded(n, width) =~= zeros + d);
    lemma_zeros_in_front(zeros, d);
    if n > 0 {
        let w: nat = if width > 0 {
            (width - 1) as nat
        } else {
            0
        };
        let rest = zero_padded(n, w);
        let front = rest.take(rest.len() - d.len());
        assert(rest =~= front + d);
        lemma_zeros_in_front(front, d);
        assert(signed_padded(-n, width) == seq!['-'] + rest);
        assert(signed_padded(-n, width).drop_first() =~= rest);
    }
}

/// Texts are ordered by the first place where they differ: the smaller character
/// comes first, and so does a text that ends there.
pub proof fn law_order_by_first_difference(a: Seq<char>, b: Seq<char>, k: int)
    requires
        0 <= k <= a.len(),
        k <= b.len(),
        forall|i: int| 0 <= i < k ==> #[trigger] a[i] == b[i],
        k < a.len() && k < b.len() ==> a[k] != b[k],
    ensures
        k < a.len() && k < b.len() ==> text_less(a, b) == (a[k] < b[k]),
        k == a.len() || k == b.len() ==> text_less(a, b) == (a.len() < b.len()),
    decreases k,
{
    if k > 0 {
        assert(a[0] == b[0]);
        let (x, y) = (a.drop_first(), b.drop_first());
        assert forall|i: int| 0 <= i < k - 1 implies #[trigger] x[i] == y[i] by {
            assert(a[i + 1] == b[i + 1]);
        }
        law_order_by_first_difference(x, y, k - 1);
    }
}

/// Joining joins: the parts of two lists are joined as the two lists are, with the
/// separator between them.
pub proof fn law_join_of_two_lists(
    a: Seq<Seq<char>>,
    b: Seq<Seq<char>>,
    separator: Seq<char>,
)
    requires
        a.len() >= 1,
        b.len() >= 1,
    ensures
        join(a + b, separator) == join(a, separator) + separator + join(b, separator),
        join(seq![a[0]], separator) == a[0],
    decreases b.len(),
{
    let all = a + b;
    assert(all.drop_last() =~= a + b.drop_last());
    assert(all.last() == b.last());
    if b.len() == 1 {
        assert(a + b.drop_last() =~= a);
        assert(join(all, separator) =~= join(a, separator) + separator + join(b, separator));
    } else {
        law_join_of_two_lists(a, b.drop_last(), separator);
        assert(join(all, separator) =~= join(a, separator) + separator + join(b, separator));
    }
}

/// Lower case changes the letters `A` to `Z` alone, each to its own small letter,
/// and upper case is undone by it.
pub proof fn law_lower_case(s: Seq<char>)
    ensures
        ascii_lower(s).len() == s.len(),
        forall|i: int|
            0 <= i < s.len() && !('A' <= #[trigger] s[i] <= 'Z') ==> ascii_lower(s)[i] == s[i],
        forall|i: int|
            0 <= i < s.len() && 'A' <= #[trigger] s[i] <= 'Z' ==> ascii_lower(s)[i] as u32 == s[i]
                as u32 + 32,
        !has_upper(ascii_lower(s)),
        ascii_lower(ascii_lower(s)) == ascii_lower(s),
        ascii_lower(ascii_upper(s)) == ascii_lower(s),
{
    assert(ascii_lower(ascii_lower(s)) =~= ascii_lower(s));
    assert(ascii_lower(ascii_upper(s)) =~= ascii_lower(s));
}

/// A separator parts a text: the pieces are those before it and those after it.
pub proof fn law_split_at_a_separator(a: Seq<char>, separator: char, b: Seq<char>)
    ensures
        split_on(a + seq![separator] + b, separator) == split_on(a, separator) + split_on(
            b,
            separator,
        ),
    decreases b.len(),
{
    let all = a + seq![separator] + b;
    lemma_split_nonempty(a, separator);
    if b.len() == 0 {
        assert(all.drop_last() =~= a);
        assert(all.last() == separator);
        assert(split_on(all, separator) =~= split_on(a, separator) + split_on(b, separator));
    } else {
        let front = b.drop_last();
        law_split_at_a_separator(a, separator, front);
        lemma_split_nonempty(front, separator);
        assert(all.drop_last() =~= a + seq![separator] + front);
        assert(all.last() == b.last());
        assert(split_on(all, separator) =~= split_on(a, separator) + split_on(b, separator));
    }
}

} // verus!
