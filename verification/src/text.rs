//! Text as sequences of characters: paths, numbers and order.

use vstd::prelude::*;

verus! {

/// `str::eq` of the standard library: two texts are equal when they hold the
/// same characters.
pub assume_specification[ <str as PartialEq<str>>::eq ](a: &str, b: &str) -> (r: bool)
    ensures
        r == (a@ == b@),
;

/// `String::push` of the standard library appends one character.
pub assume_specification[ String::push ](s: &mut String, c: char)
    ensures
        final(s)@ == old(s)@.push(c),
;

/// Two texts hold the same characters.
pub fn same_text(a: &str, b: &str) -> (r: bool)
    ensures
        r == (a@ == b@),
{
    *a == *b
}

/// The characters of `s`.
pub fn chars_of(s: &str) -> (r: Vec<char>)
    ensures
        r@ == s@,
{
    let mut out: Vec<char> = Vec::new();
    for c in it: s.chars()
        invariant
            it.seq() == s@,
            out@ == s@.take(it.index() as int),
    {
        proof {
            assert(s@.take(it.index() as int + 1) =~= s@.take(it.index() as int).push(
                s@[it.index() as int],
            ));
        }
        out.push(c);
    }
    proof {
        assert(s@.take(s@.len() as int) =~= s@);
    }
    out
}

/// The text made of `cs`.
pub fn text_of(cs: &[char]) -> (r: String)
    ensures
        r@ == cs@,
{
    let mut out: String = String::new();
    let mut i: usize = 0;
    while i < cs.len()
        invariant
            i <= cs.len(),
            out@ == cs@.take(i as int),
        decreases cs.len() - i,
    {
        proof {
            assert(cs@.take(i as int + 1) =~= cs@.take(i as int).push(cs@[i as int]));
        }
        out.push(cs[i]);
        i = i + 1;
    }
    proof {
        assert(cs@.take(cs@.len() as int) =~= cs@);
    }
    out
}

// ---------------------------------------------------------------------------
// Paths
// ---------------------------------------------------------------------------

/// `s` with every backslash turned into a slash.
pub open spec fn slashed(s: Seq<char>) -> Seq<char> {
    Seq::new(
        s.len(),
        |i: int|
            if s[i] == '\\' {
                '/'
            } else {
                s[i]
            },
    )
}

/// What follows the last slash of `s`; all of `s` where it has none.
pub open spec fn after_last_slash(s: Seq<char>) -> Seq<char>
    decreases s.len(),
{
    if s.len() == 0 || s.last() == '/' {
        Seq::empty()
    } else {
        after_last_slash(s.drop_last()).push(s.last())
    }
}

/// `s` holds `part` as consecutive characters.
pub open spec fn holds(s: Seq<char>, part: Seq<char>) -> bool {
    exists|i: int|
        0 <= i <= s.len() - part.len() && #[trigger] s.subrange(i, i + part.len()) == part
}

pub fn slashed_chars(s: &str) -> (r: Vec<char>)
    ensures
        r@ == slashed(s@),
{
    let cs: Vec<char> = chars_of(s);
    let mut out: Vec<char> = Vec::new();
    let mut i: usize = 0;
    while i < cs.len()
        invariant
            i <= cs.len(),
            cs@ == s@,
            out@ == slashed(s@).take(i as int),
        decreases cs.len() - i,
    {
        let c: char = if cs[i] == '\\' {
            '/'
        } else {
            cs[i]
        };
        out.push(c);
        proof {
            assert(slashed(s@).take(i as int + 1) =~= slashed(s@).take(i as int).push(c));
        }
        i = i + 1;
    }
    proof {
        assert(slashed(s@).take(s@.len() as int) =~= slashed(s@));
    }
    out
}

/// True when `cs` begins with `prefix`.
pub fn begins_with(cs: &[char], prefix: &str) -> (r: bool)
    ensures
        r == prefix@.is_prefix_of(cs@),
{
    let ps: Vec<char> = chars_of(prefix);
    if cs.len() < ps.len() {
        return false;
    }
    let mut i: usize = 0;
    while i < ps.len()
        invariant
            i <= ps.len() <= cs.len(),
            ps@ == prefix@,
            forall|j: int| 0 <= j < i ==> cs@[j] == ps@[j],
        decreases ps.len() - i,
    {
        if cs[i] != ps[i] {
            proof {
                if prefix@.is_prefix_of(cs@) {
                    assert(cs@.subrange(0, prefix@.len() as int)[i as int] == prefix@[i as int]);
                }
            }
            return false;
        }
        i = i + 1;
    }
    proof {
        assert(cs@.subrange(0, prefix@.len() as int) =~= prefix@);
    }
    true
}

/// The file name of a path with forward slashes.
pub fn base_name(cs: &[char]) -> (r: Vec<char>)
    ensures
        r@ == after_last_slash(cs@),
{
    let mut start: usize = cs.len();
    proof {
        assert(cs@.take(start as int) =~= cs@);
        assert(after_last_slash(cs@) + cs@.skip(start as int) =~= after_last_slash(cs@));
    }
    while start > 0 && cs[start - 1] != '/'
        invariant
            start <= cs.len(),
            after_last_slash(cs@) == after_last_slash(cs@.take(start as int)) + cs@.skip(
                start as int,
            ),
        decreases start,
    {
        proof {
            let t = cs@.take(start as int);
            assert(t.drop_last() =~= cs@.take(start as int - 1));
            assert(t.last() == cs@[start as int - 1]);
            assert(after_last_slash(t) == after_last_slash(t.drop_last()).push(t.last()));
            assert(after_last_slash(t.drop_last()).push(t.last()) + cs@.skip(start as int)
                =~= after_last_slash(t.drop_last()) + cs@.skip(start as int - 1));
        }
        start = start - 1;
    }
    proof {
        let t = cs@.take(start as int);
        if start > 0 {
            assert(t.last() == cs@[start as int - 1]);
        }
        assert(after_last_slash(t) =~= Seq::<char>::empty());
        assert(after_last_slash(cs@) =~= cs@.skip(start as int));
    }
    copy_range(cs, start, cs.len())
}

/// A copy of `cs[from..to]`.
pub fn copy_range<T: Copy>(cs: &[T], from: usize, to: usize) -> (r: Vec<T>)
    requires
        from <= to <= cs.len(),
    ensures
        r@ == cs@.subrange(from as int, to as int),
{
    let mut out: Vec<T> = Vec::new();
    let mut i: usize = from;
    while i < to
        invariant
            from <= i <= to <= cs.len(),
            out@ == cs@.subrange(from as int, i as int),
        decreases to - i,
    {
        out.push(cs[i]);
        proof {
            assert(cs@.subrange(from as int, i as int + 1) =~= cs@.subrange(
                from as int,
                i as int,
            ).push(cs@[i as int]));
        }
        i = i + 1;
    }
    out
}

/// True when `cs` holds `part`.
pub fn contains_text(cs: &[char], part: &str) -> (r: bool)
    ensures
        r == holds(cs@, part@),
{
    let ps: Vec<char> = chars_of(part);
    if cs.len() < ps.len() {
        return false;
    }
    let mut i: usize = 0;
    while i <= cs.len() - ps.len()
        invariant
            ps@ == part@,
            i <= cs.len() - ps.len() + 1,
            ps.len() <= cs.len(),
            cs.len() <= usize::MAX,
            forall|k: int| 0 <= k < i ==> #[trigger] cs@.subrange(k, k + part@.len()) != part@,
        decreases cs.len() - i,
    {
        let mut j: usize = 0;
        while j < ps.len() && cs[i + j] == ps[j]
            invariant
                ps@ == part@,
                j <= ps.len(),
                i + ps.len() <= cs.len(),
                forall|k: int| 0 <= k < j ==> cs@[i + k] == ps@[k],
            decreases ps.len() - j,
        {
            j = j + 1;
        }
        if j == ps.len() {
            proof {
                assert(cs@.subrange(i as int, i + part@.len()) =~= part@);
            }
            return true;
        }
        proof {
            if cs@.subrange(i as int, i + part@.len()) == part@ {
                assert(cs@.subrange(i as int, i + part@.len())[j as int] == part@[j as int]);
            }
        }
        if i == cs.len() - ps.len() {
            return false;
        }
        i = i + 1;
    }
    false
}

// ---------------------------------------------------------------------------
// Order
// ---------------------------------------------------------------------------

/// Dictionary order by code point, a proper prefix first.
pub open spec fn text_before(a: Seq<char>, b: Seq<char>) -> bool
    decreases a.len(),
{
    if b.len() == 0 {
        false
    } else if a.len() == 0 {
        true
    } else if a[0] != b[0] {
        a[0] < b[0]
    } else {
        text_before(a.skip(1), b.skip(1))
    }
}

/// Whether `a` comes strictly before `b` in dictionary order.
pub fn comes_before(a: &[char], b: &[char]) -> (r: bool)
    ensures
        r == text_before(a@, b@),
{
    let mut i: usize = 0;
    proof {
        assert(a@.skip(0) =~= a@);
        assert(b@.skip(0) =~= b@);
    }
    while i < a.len() && i < b.len() && a[i] == b[i]
        invariant
            i <= a.len(),
            i <= b.len(),
            text_before(a@, b@) == text_before(a@.skip(i as int), b@.skip(i as int)),
        decreases a.len() - i,
    {
        proof {
            assert(a@.skip(i as int).skip(1) =~= a@.skip(i as int + 1));
            assert(b@.skip(i as int).skip(1) =~= b@.skip(i as int + 1));
        }
        i = i + 1;
    }
    if i == b.len() {
        false
    } else if i == a.len() {
        true
    } else {
        a[i] < b[i]
    }
}

/// The order is total on distinct texts.
pub proof fn lemma_text_order(a: Seq<char>, b: Seq<char>)
    ensures
        !(text_before(a, b) && text_before(b, a)),
        !text_before(a, b) && !text_before(b, a) ==> a == b,
        !text_before(a, a),
    decreases a.len(),
{
    if a.len() == 0 || b.len() == 0 {
        if a.len() == 0 && b.len() == 0 {
            assert(a =~= b);
        }
        if a.len() > 0 {
            lemma_text_order(a.skip(1), a.skip(1));
        }
    } else {
        lemma_text_order(a.skip(1), b.skip(1));
        lemma_text_order(a.skip(1), a.skip(1));
        if a[0] == b[0] && a.skip(1) == b.skip(1) {
            assert(a =~= seq![a[0]] + a.skip(1));
            assert(b =~= seq![b[0]] + b.skip(1));
        }
    }
}

// ---------------------------------------------------------------------------
// Numbers
// ---------------------------------------------------------------------------

pub open spec fn is_digit(c: char) -> bool {
    '0' <= c <= '9'
}

pub open spec fn all_digits(s: Seq<char>) -> bool {
    forall|i: int| 0 <= i < s.len() ==> #[trigger] is_digit(s[i])
}

/// The number that a run of decimal digits spells.
pub open spec fn digits_value(s: Seq<char>) -> nat
    decreases s.len(),
{
    if s.len() == 0 {
        0
    } else {
        (10 * digits_value(s.drop_last()) + (s.last() as int - '0' as int)) as nat
    }
}

/// The integer that `s` spells: decimal digits behind an optional sign, a minus
/// only where `minus` allows it.
pub open spec fn spelled(s: Seq<char>, minus: bool) -> Option<int> {
    let neg = s.len() > 0 && s[0] == '-' && minus;
    let digits = if s.len() > 0 && (s[0] == '+' || neg) {
        s.skip(1)
    } else {
        s
    };
    if digits.len() == 0 || !all_digits(digits) {
        None
    } else if neg {
        Some(-(digits_value(digits) as int))
    } else {
        Some(digits_value(digits) as int)
    }
}

proof fn lemma_digits_grow(s: Seq<char>, i: int)
    requires
        0 <= i <= s.len(),
        all_digits(s),
    ensures
        digits_value(s.take(i)) <= digits_value(s),
    decreases s.len() - i,
{
    if i == s.len() {
        assert(s.take(i) =~= s);
    } else {
        assert(s.take(i + 1).drop_last() =~= s.take(i));
        assert(is_digit(s[i]));
        lemma_digits_grow(s, i + 1);
    }
}

/// `cs[from..]` as a decimal number up to `limit`.
fn read_digits(cs: &[char], from: usize, limit: u64) -> (r: Option<u64>)
    requires
        from <= cs.len(),
    ensures
        match r {
            Some(v) => cs@.len() > from && all_digits(cs@.skip(from as int)) && v == digits_value(
                cs@.skip(from as int),
            ) && v <= limit,
            None => cs@.len() == from || !all_digits(cs@.skip(from as int)) || digits_value(
                cs@.skip(from as int),
            ) > limit,
        },
{
    if from == cs.len() {
        return None;
    }
    let ghost ds = cs@.skip(from as int);
    // Digits first, so that a number out of range is told from a malformed one
    // only by its value.
    let mut i: usize = from;
    while i < cs.len()
        invariant
            from <= i <= cs.len(),
            ds == cs@.skip(from as int),
            forall|k: int| from <= k < i ==> is_digit(#[trigger] cs@[k]),
        decreases cs.len() - i,
    {
        if !('0' <= cs[i] && cs[i] <= '9') {
            proof {
                assert(ds[i - from] == cs@[i as int]);
                assert(!is_digit(ds[i - from]));
            }
            return None;
        }
        i = i + 1;
    }
    proof {
        assert forall|k: int| 0 <= k < ds.len() implies #[trigger] is_digit(ds[k]) by {
            assert(ds[k] == cs@[from + k]);
        }
    }
    let mut v: u64 = 0;
    let mut j: usize = from;
    proof {
        assert(ds.take(0) =~= Seq::<char>::empty());
    }
    while j < cs.len()
        invariant
            from <= j <= cs.len(),
            ds == cs@.skip(from as int),
            all_digits(ds),
            v == digits_value(ds.take(j - from)),
            v <= limit,
        decreases cs.len() - j,
    {
        proof {
            assert(ds[j - from] == cs@[j as int]);
            assert(is_digit(ds[j - from]));
            assert(ds.take(j - from + 1).drop_last() =~= ds.take(j - from));
            lemma_digits_grow(ds, j - from + 1);
        }
        let d: u64 = (cs[j] as u32 - '0' as u32) as u64;
        let next: u128 = (v as u128) * 10 + d as u128;
        if next > limit as u128 {
            return None;
        }
        v = next as u64;
        j = j + 1;
    }
    proof {
        assert(ds.take(ds.len() as int) =~= ds);
    }
    Some(v)
}

/// Reads an unsigned number up to `limit`.
pub fn parse_unsigned(cs: &[char], limit: u64) -> (r: Option<u64>)
    ensures
        match (r, spelled(cs@, false)) {
            (Some(v), Some(n)) => v == n && n <= limit,
            (None, Some(n)) => n > limit,
            (None, None) => true,
            (Some(_), None) => false,
        },
{
    if cs.len() > 0 && cs[0] == '+' {
        read_digits(cs, 1, limit)
    } else {
        proof {
            assert(cs@.skip(0) =~= cs@);
        }
        read_digits(cs, 0, limit)
    }
}

/// Reads a signed number between `-limit - 1` and `limit`.
pub fn parse_signed(cs: &[char], limit: i64) -> (r: Option<i64>)
    requires
        limit >= 0,
    ensures
        match (r, spelled(cs@, true)) {
            (Some(v), Some(n)) => v == n && -limit - 1 <= n <= limit,
            (None, Some(n)) => n > limit || n < -limit - 1,
            (None, None) => true,
            (Some(_), None) => false,
        },
{
    proof {
        assert(cs@.skip(0) =~= cs@);
    }
    if cs.len() > 0 && cs[0] == '-' {
        match read_digits(cs, 1, limit as u64 + 1) {
            Some(v) => Some((-(v as i128)) as i64),
            None => None,
        }
    } else if cs.len() > 0 && cs[0] == '+' {
        match read_digits(cs, 1, limit as u64) {
            Some(v) => Some(v as i64),
            None => None,
        }
    } else {
        match read_digits(cs, 0, limit as u64) {
            Some(v) => Some(v as i64),
            None => None,
        }
    }
}

// ---------------------------------------------------------------------------
// White space
// ---------------------------------------------------------------------------

/// The characters with the Unicode property `White_Space`.
pub open spec fn is_space(c: char) -> bool {
    ('\u{9}' <= c <= '\u{d}') || c == ' ' || c == '\u{85}' || c == '\u{a0}' || c == '\u{1680}' || (
    '\u{2000}' <= c <= '\u{200a}') || c == '\u{2028}' || c == '\u{2029}' || c == '\u{202f}' || c
        == '\u{205f}' || c == '\u{3000}'
}

/// `s` without leading white space.
pub open spec fn trimmed_front(s: Seq<char>) -> Seq<char>
    decreases s.len(),
{
    if s.len() > 0 && is_space(s[0]) {
        trimmed_front(s.skip(1))
    } else {
        s
    }
}

/// `s` without trailing white space.
pub open spec fn trimmed_back(s: Seq<char>) -> Seq<char>
    decreases s.len(),
{
    if s.len() > 0 && is_space(s.last()) {
        trimmed_back(s.drop_last())
    } else {
        s
    }
}

/// `s` without white space at either end.
pub open spec fn trimmed(s: Seq<char>) -> Seq<char> {
    trimmed_back(trimmed_front(s))
}

proof fn lemma_front_trimming_keeps(s: Seq<char>, c: char)
    requires
        s.contains(c),
        !is_space(c),
    ensures
        trimmed_front(s).contains(c),
    decreases s.len(),
{
    if s.len() > 0 && is_space(s[0]) {
        let k = choose|k: int| 0 <= k < s.len() && s[k] == c;
        assert(s.skip(1)[k - 1] == c);
        lemma_front_trimming_keeps(s.skip(1), c);
    }
}

proof fn lemma_back_trimming_keeps(s: Seq<char>, c: char)
    requires
        s.contains(c),
        !is_space(c),
    ensures
        trimmed_back(s).contains(c),
    decreases s.len(),
{
    if s.len() > 0 && is_space(s.last()) {
        let k = choose|k: int| 0 <= k < s.len() && s[k] == c;
        assert(s.drop_last()[k] == c);
        lemma_back_trimming_keeps(s.drop_last(), c);
    }
}

/// Trimming takes nothing but white space.
pub proof fn lemma_trimming_keeps(s: Seq<char>, c: char)
    requires
        s.contains(c),
        !is_space(c),
    ensures
        trimmed(s).contains(c),
{
    lemma_front_trimming_keeps(s, c);
    lemma_back_trimming_keeps(trimmed_front(s), c);
}

fn space(c: char) -> (r: bool)
    ensures
        r == is_space(c),
{
    ('\u{9}' <= c && c <= '\u{d}') || c == ' ' || c == '\u{85}' || c == '\u{a0}' || c == '\u{1680}'
        || ('\u{2000}' <= c && c <= '\u{200a}') || c == '\u{2028}' || c == '\u{2029}' || c
        == '\u{202f}' || c == '\u{205f}' || c == '\u{3000}'
}

/// The characters of `s` without white space at either end.
pub fn trim(s: &str) -> (r: Vec<char>)
    ensures
        r@ == trimmed(s@),
{
    let cs: Vec<char> = chars_of(s);
    let mut from: usize = 0;
    proof {
        assert(cs@.skip(0) =~= cs@);
    }
    while from < cs.len() && space(cs[from])
        invariant
            from <= cs.len(),
            trimmed_front(cs@) == trimmed_front(cs@.skip(from as int)),
        decreases cs.len() - from,
    {
        proof {
            assert(cs@.skip(from as int).skip(1) =~= cs@.skip(from as int + 1));
        }
        from = from + 1;
    }
    let mut to: usize = cs.len();
    proof {
        assert(cs@.subrange(from as int, to as int) =~= cs@.skip(from as int));
        assert(trimmed_front(cs@.skip(from as int)) == cs@.skip(from as int));
    }
    while to > from && space(cs[to - 1])
        invariant
            from <= to <= cs.len(),
            trimmed(cs@) == trimmed_back(cs@.subrange(from as int, to as int)),
        decreases to,
    {
        proof {
            assert(cs@.subrange(from as int, to as int).drop_last() =~= cs@.subrange(
                from as int,
                to as int - 1,
            ));
        }
        to = to - 1;
    }
    copy_range(&cs, from, to)
}

/// The order is transitive.
pub proof fn lemma_text_order_chains(a: Seq<char>, b: Seq<char>, c: Seq<char>)
    requires
        text_before(a, b),
        text_before(b, c),
    ensures
        text_before(a, c),
    decreases a.len(),
{
    if a.len() > 0 && a[0] == b[0] && b[0] == c[0] {
        lemma_text_order_chains(a.skip(1), b.skip(1), c.skip(1));
    }
}

/// The character for one digit.
pub open spec fn digit_char(d: int) -> char {
    if d == 1 {
        '1'
    } else if d == 2 {
        '2'
    } else if d == 3 {
        '3'
    } else if d == 4 {
        '4'
    } else if d == 5 {
        '5'
    } else if d == 6 {
        '6'
    } else if d == 7 {
        '7'
    } else if d == 8 {
        '8'
    } else if d == 9 {
        '9'
    } else {
        '0'
    }
}

/// A number in decimal digits.
pub open spec fn decimal(n: nat) -> Seq<char>
    decreases n,
{
    if n < 10 {
        seq![digit_char(n as int)]
    } else {
        decimal(n / 10).push(digit_char((n % 10) as int))
    }
}

/// The character for one digit.
pub fn digit(d: u64) -> (r: char)
    requires
        d < 10,
    ensures
        r == digit_char(d as int),
{
    if d == 1 {
        '1'
    } else if d == 2 {
        '2'
    } else if d == 3 {
        '3'
    } else if d == 4 {
        '4'
    } else if d == 5 {
        '5'
    } else if d == 6 {
        '6'
    } else if d == 7 {
        '7'
    } else if d == 8 {
        '8'
    } else if d == 9 {
        '9'
    } else {
        '0'
    }
}

/// Appends a number in decimal digits.
pub fn push_decimal(out: &mut String, n: u64)
    ensures
        final(out)@ == old(out)@ + decimal(n as nat),
    decreases n,
{
    let ghost start = out@;
    if n >= 10 {
        push_decimal(out, n / 10);
    }
    out.push(digit(n % 10));
    proof {
        assert(out@ =~= start + decimal(n as nat));
    }
}

/// Appends a text.
pub fn push_text(out: &mut String, t: &str)
    ensures
        final(out)@ == old(out)@ + t@,
{
    let cs: Vec<char> = chars_of(t);
    let ghost start = out@;
    let mut i: usize = 0;
    while i < cs.len()
        invariant
            i <= cs.len(),
            cs@ == t@,
            out@ == start + t@.take(i as int),
        decreases cs.len() - i,
    {
        out.push(cs[i]);
        i = i + 1;
        proof {
            assert(out@ =~= start + t@.take(i as int));
        }
    }
    proof {
        assert(t@.take(i as int) =~= t@);
    }
}

/// An integer in decimal digits, behind a minus where it is below zero.
pub open spec fn signed_decimal(n: int) -> Seq<char> {
    if n < 0 {
        seq!['-'] + decimal((-n) as nat)
    } else {
        decimal(n as nat)
    }
}

/// Appends an integer in decimal digits.
pub fn push_signed(out: &mut String, n: i64)
    ensures
        final(out)@ == old(out)@ + signed_decimal(n as int),
{
    let ghost start = out@;
    if n < 0 {
        out.push('-');
        push_decimal(out, (-(n as i128)) as u64);
    } else {
        push_decimal(out, n as u64);
    }
    proof {
        assert(out@ =~= start + signed_decimal(n as int));
    }
}

/// An integer as text.
pub fn show_int(n: i64) -> (r: String)
    ensures
        r@ == signed_decimal(n as int),
{
    let mut out: String = String::new();
    push_signed(&mut out, n);
    proof {
        assert(out@ =~= signed_decimal(n as int));
    }
    out
}

proof fn lemma_decimal_digits(n: nat)
    ensures
        decimal(n).len() > 0,
        all_digits(decimal(n)),
        digits_value(decimal(n)) == n,
    decreases n,
{
    let s = decimal(n);
    if n < 10 {
        assert(s.drop_last() =~= Seq::<char>::empty());
        assert(digits_value(s.drop_last()) == 0);
    } else {
        lemma_decimal_digits(n / 10);
        assert(s.drop_last() =~= decimal(n / 10));
        assert forall|i: int| 0 <= i < s.len() implies #[trigger] is_digit(s[i]) by {
            if i < s.len() - 1 {
                assert(is_digit(decimal(n / 10)[i]));
            }
        }
    }
}

/// A number written in decimal reads back as itself, with or without trimming.
pub proof fn law_decimal_reads_back(n: int)
    ensures
        spelled(signed_decimal(n), true) == Some(n),
        n >= 0 ==> spelled(signed_decimal(n), false) == Some(n),
        trimmed(signed_decimal(n)) == signed_decimal(n),
{
    let s = signed_decimal(n);
    if n < 0 {
        let d = decimal((-n) as nat);
        lemma_decimal_digits((-n) as nat);
        assert(s.skip(1) =~= d);
        assert(s.last() == d.last());
        assert(is_digit(d[d.len() - 1]));
    } else {
        lemma_decimal_digits(n as nat);
        assert(is_digit(s[0]));
        assert(is_digit(s[s.len() - 1]));
    }
    assert(!is_space(s[0]));
    assert(trimmed_front(s) == s);
    assert(!is_space(s.last()));
}

// ---------------------------------------------------------------------------
// UTF-8 lengths
// ---------------------------------------------------------------------------

/// Bytes that a character takes in UTF-8.
pub open spec fn utf8_width(c: char) -> int {
    if c <= '\u{7f}' {
        1
    } else if c <= '\u{7ff}' {
        2
    } else if c <= '\u{ffff}' {
        3
    } else {
        4
    }
}

/// Bytes that the first `n` characters take in UTF-8.
pub open spec fn utf8_length(s: Seq<char>, n: int) -> int
    decreases n,
{
    if n <= 0 {
        0
    } else {
        utf8_length(s, n - 1) + utf8_width(s[n - 1])
    }
}

/// `s` can be cut behind `bytes` bytes: how many characters that keeps.
pub open spec fn cut_at(s: Seq<char>, bytes: int, n: int) -> bool {
    0 <= n <= s.len() && utf8_length(s, n) == bytes
}

fn width(c: char) -> (r: usize)
    ensures
        r == utf8_width(c),
{
    if c <= '\u{7f}' {
        1
    } else if c <= '\u{7ff}' {
        2
    } else if c <= '\u{ffff}' {
        3
    } else {
        4
    }
}

pub proof fn lemma_utf8_grows(s: Seq<char>, a: int, b: int)
    requires
        0 <= a <= b,
    ensures
        utf8_length(s, a) + (b - a) <= utf8_length(s, b),
    decreases b,
{
    if a < b {
        lemma_utf8_grows(s, a, b - 1);
    }
}

/// How many characters the first `bytes` bytes are; `None` where they end within
/// a character or there are fewer.
pub fn chars_in_bytes(cs: &[char], bytes: usize) -> (r: Option<usize>)
    ensures
        match r {
            Some(n) => cut_at(cs@, bytes as int, n as int),
            None => forall|n: int| 0 <= n <= cs@.len() ==> !#[trigger] cut_at(
                cs@,
                bytes as int,
                n,
            ),
        },
{
    let mut n: usize = 0;
    let mut left: usize = bytes;
    while n < cs.len() && left > 0
        invariant
            n <= cs@.len(),
            left <= bytes,
            utf8_length(cs@, n as int) == bytes - left,
        decreases cs@.len() - n,
    {
        let w: usize = width(cs[n]);
        if w > left {
            proof {
                assert forall|m: int| 0 <= m <= cs@.len() implies !#[trigger] cut_at(
                    cs@,
                    bytes as int,
                    m,
                ) by {
                    if m <= n {
                        lemma_utf8_grows(cs@, m, n as int);
                    } else {
                        lemma_utf8_grows(cs@, n + 1, m);
                    }
                }
            }
            return None;
        }
        left = left - w;
        n = n + 1;
    }
    if left == 0 {
        Some(n)
    } else {
        proof {
            assert forall|m: int| 0 <= m <= cs@.len() implies !#[trigger] cut_at(
                cs@,
                bytes as int,
                m,
            ) by {
                lemma_utf8_grows(cs@, m, cs@.len() as int);
            }
        }
        None
    }
}

} // verus!
