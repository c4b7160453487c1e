//! Strings as sequences of characters, and the few operations the library needs on them.
use vstd::prelude::*;
use vstd::string::*;
use vstd::utf8::*;

verus! {

/// [`String::push`] of std: appends one character.
pub assume_specification[ String::push ](s: &mut String, ch: char)
    ensures
        final(s)@ == old(s)@.push(ch),
;

/// What a string is, to a contract.
pub type Text = Seq<char>;

// --- Order -----------------------------------------------------------------------------

/// Lexicographic order of byte strings, strict.
pub open spec fn bytes_before(a: Seq<u8>, b: Seq<u8>) -> bool
    decreases a.len(),
{
    if b.len() == 0 {
        false
    } else if a.len() == 0 {
        true
    } else if a[0] != b[0] {
        a[0] < b[0]
    } else {
        bytes_before(a.drop_first(), b.drop_first())
    }
}

/// The order of strings: lexicographic by their bytes.
pub open spec fn text_before(a: Seq<char>, b: Seq<char>) -> bool {
    bytes_before(encode_utf8(a), encode_utf8(b))
}

proof fn lemma_bytes_irreflexive(a: Seq<u8>)
    ensures
        !bytes_before(a, a),
    decreases a.len(),
{
    if a.len() > 0 {
        lemma_bytes_irreflexive(a.drop_first());
    }
}

proof fn lemma_bytes_transitive(a: Seq<u8>, b: Seq<u8>, c: Seq<u8>)
    requires
        bytes_before(a, b),
        bytes_before(b, c),
    ensures
        bytes_before(a, c),
    decreases a.len(),
{
    if a.len() > 0 && a[0] == b[0] && b[0] == c[0] {
        lemma_bytes_transitive(a.drop_first(), b.drop_first(), c.drop_first());
    }
}

proof fn lemma_bytes_total(a: Seq<u8>, b: Seq<u8>)
    ensures
        a == b || bytes_before(a, b) || bytes_before(b, a),
    decreases a.len(),
{
    if a.len() > 0 && b.len() > 0 && a[0] == b[0] {
        lemma_bytes_total(a.drop_first(), b.drop_first());
        if a.drop_first() == b.drop_first() {
            assert(a =~= seq![a[0]] + a.drop_first());
            assert(b =~= seq![b[0]] + b.drop_first());
        }
    } else if a.len() == 0 && b.len() == 0 {
        assert(a =~= b);
    }
}

/// Two strings with the same bytes are the same.
pub proof fn lemma_encoding_injective(a: Seq<char>, b: Seq<char>)
    requires
        encode_utf8(a) == encode_utf8(b),
    ensures
        a == b,
{
    encode_utf8_decode_utf8(a);
    encode_utf8_decode_utf8(b);
}

/// The order of strings is a strict total order.
pub proof fn text_order(a: Seq<char>, b: Seq<char>, c: Seq<char>)
    ensures
        !text_before(a, a),
        text_before(a, b) && text_before(b, c) ==> text_before(a, c),
        a == b || text_before(a, b) || text_before(b, a),
{
    lemma_bytes_irreflexive(encode_utf8(a));
    if text_before(a, b) && text_before(b, c) {
        lemma_bytes_transitive(encode_utf8(a), encode_utf8(b), encode_utf8(c));
    }
    lemma_bytes_total(encode_utf8(a), encode_utf8(b));
    if encode_utf8(a) == encode_utf8(b) {
        lemma_encoding_injective(a, b);
    }
}

/// Whether two strings are equal.
pub fn same(a: &str, b: &str) -> (r: bool)
    ensures
        r == (a@ == b@),
{
    let x = a.as_bytes();
    let y = b.as_bytes();
    if x.len() != y.len() {
        return false;
    }
    let n: usize = x.len();
    for i in 0..n
        invariant
            n == x@.len(),
            n == y@.len(),
            x@ == encode_utf8(a@),
            y@ == encode_utf8(b@),
            forall|j: int| 0 <= j < i ==> x@[j] == y@[j],
    {
        if x[i] != y[i] {
            return false;
        }
    }
    proof {
        assert(x@ =~= y@);
        lemma_encoding_injective(a@, b@);
    }
    true
}

/// Whether one string comes strictly before another.
pub fn comes_before(a: &str, b: &str) -> (r: bool)
    ensures
        r == text_before(a@, b@),
{
    let x = a.as_bytes();
    let y = b.as_bytes();
    let mut i: usize = 0;
    proof {
        assert(x@.skip(0) =~= x@);
        assert(y@.skip(0) =~= y@);
    }
    while i < x.len() && i < y.len()
        invariant
            i <= x@.len(),
            i <= y@.len(),
            x@ == encode_utf8(a@),
            y@ == encode_utf8(b@),
            text_before(a@, b@) == bytes_before(x@.skip(i as int), y@.skip(i as int)),
        decreases x@.len() - i,
    {
        if x[i] != y[i] {
            return x[i] < y[i];
        }
        proof {
            assert(x@.skip(i as int).drop_first() =~= x@.skip(i + 1));
            assert(y@.skip(i as int).drop_first() =~= y@.skip(i + 1));
        }
        i += 1;
    }
    i < y.len()
}

// --- Building --------------------------------------------------------------------------

/// The characters of a string.
pub fn chars_of(s: &str) -> (r: Vec<char>)
    ensures
        r@ == s@,
{
    let mut out: Vec<char> = Vec::new();
    for c in it: s.chars()
        invariant
            out@ == it.seq().take(it.index()),
            it.seq() == s@,
    {
        out.push(c);
    }
    out
}

/// A string from a range of characters.
pub fn text_of(chars: &Vec<char>, from: usize, to: usize) -> (r: String)
    requires
        from <= to <= chars@.len(),
    ensures
        r@ == chars@.subrange(from as int, to as int),
{
    let mut out = String::new();
    let mut i: usize = from;
    while i < to
        invariant
            from <= i <= to <= chars@.len(),
            out@ == chars@.subrange(from as int, i as int),
        decreases to - i,
    {
        out.push(chars[i]);
        i += 1;
    }
    out
}

/// Two strings, one after the other.
pub fn joined(a: &str, b: &str) -> (r: String)
    ensures
        r@ == a@ + b@,
{
    let mut out = a.to_owned();
    out.append(b);
    out
}


// --- Numbers ---------------------------------------------------------------------------

/// A decimal digit.
pub open spec fn digit(d: int) -> char {
    ('0' as int + d) as char
}

/// A number in decimal.
pub open spec fn digits(n: nat) -> Text
    decreases n,
{
    if n < 10 {
        seq![digit(n as int)]
    } else {
        digits(n / 10).push(digit((n % 10) as int))
    }
}

fn digit_char(d: u8) -> (r: char)
    requires
        d < 10,
    ensures
        r == digit(d as int),
{
    match d {
        0 => '0',
        1 => '1',
        2 => '2',
        3 => '3',
        4 => '4',
        5 => '5',
        6 => '6',
        7 => '7',
        8 => '8',
        _ => '9',
    }
}

/// A number in decimal.
pub fn decimal(n: u64) -> (r: String)
    ensures
        r@ == digits(n as nat),
    decreases n,
{
    if n < 10 {
        let mut out = String::new();
        out.push(digit_char(n as u8));
        assert(out@ =~= seq![digit(n as int)]);
        out
    } else {
        let mut out = decimal(n / 10);
        out.push(digit_char((n % 10) as u8));
        out
    }
}

proof fn lemma_digit(a: int, b: int)
    requires
        0 <= a < 10,
        0 <= b < 10,
        digit(a) == digit(b),
    ensures
        a == b,
{
}

/// Different numbers are written differently.
pub proof fn lemma_digits_injective(a: nat, b: nat)
    requires
        digits(a) == digits(b),
    ensures
        a == b,
    decreases a + b,
{
    lemma_digits_len(a);
    lemma_digits_len(b);
    if a < 10 && b < 10 {
        assert(digits(a) == seq![digit(a as int)]);
        assert(digits(b) == seq![digit(b as int)]);
        let x = digit(a as int);
        let y = digit(b as int);
        assert(seq![x][0] == x);
        assert(seq![y][0] == y);
        assert(digits(a)[0] == digits(b)[0]);
        lemma_digit(a as int, b as int);
    } else if a >= 10 && b >= 10 {
        let x = digits(a / 10);
        let y = digits(b / 10);
        assert(x =~= digits(a).drop_last());
        assert(y =~= digits(b).drop_last());
        lemma_digits_injective(a / 10, b / 10);
        assert(digits(a) == x.push(digit((a % 10) as int)));
        assert(digits(b) == y.push(digit((b % 10) as int)));
        let c = digit((a % 10) as int);
        let d = digit((b % 10) as int);
        assert(x.push(c).last() == c);
        assert(y.push(d).last() == d);
        assert(digits(a).last() == digits(b).last());
        lemma_digit((a % 10) as int, (b % 10) as int);
    } else if a < 10 {
        lemma_digits_len(b / 10);
    } else {
        lemma_digits_len(a / 10);
    }
}

proof fn lemma_digits_len(n: nat)
    ensures
        digits(n).len() >= 1,
    decreases n,
{
    if n >= 10 {
        lemma_digits_len(n / 10);
    }
}

/// Text followed by a number.
pub fn numbered(prefix: &str, n: u64) -> (r: String)
    ensures
        r@ == prefix@ + digits(n as nat),
{
    joined(prefix, decimal(n).as_str())
}

// --- Searching -------------------------------------------------------------------------

/// Whether `needle` stands in `haystack` at a position.
pub open spec fn stands_at(haystack: Text, needle: Text, i: int) -> bool {
    0 <= i && i + needle.len() <= haystack.len() && haystack.subrange(i, i + needle.len())
        == needle
}

/// Whether one text occurs in another.
pub open spec fn occurs(haystack: Text, needle: Text) -> bool {
    exists|i: int| #[trigger] stands_at(haystack, needle, i)
}

/// Whether characters stand at a position.
pub fn matches_at(haystack: &Vec<char>, needle: &Vec<char>, at: usize) -> (r: bool)
    requires
        at <= haystack@.len(),
    ensures
        r == stands_at(haystack@, needle@, at as int),
{
    let n: usize = needle.len();
    let total: usize = haystack.len();
    if total - at < n {
        return false;
    }
    for k in 0..n
        invariant
            n == needle@.len(),
            total == haystack@.len(),
            at + n <= total,
            forall|j: int| 0 <= j < k ==> haystack@[at + j] == needle@[j],
    {
        if haystack[at + k] != needle[k] {
            assert(haystack@.subrange(at as int, at + n)[k as int] != needle@[k as int]);
            return false;
        }
    }
    assert(haystack@.subrange(at as int, at + n) =~= needle@);
    true
}

/// The first position from `from` on where a text stands in another.
pub open spec fn first_at(haystack: Text, needle: Text, from: int) -> Option<int>
    decreases haystack.len() - from + 1,
{
    if from > haystack.len() {
        None
    } else if stands_at(haystack, needle, from) {
        Some(from)
    } else {
        first_at(haystack, needle, from + 1)
    }
}

/// Where a text is found, it stands, and nowhere earlier; where it is not, it stands nowhere.
pub proof fn lemma_first_at(haystack: Text, needle: Text, from: int)
    requires
        0 <= from,
    ensures
        match first_at(haystack, needle, from) {
            Some(i) => from <= i <= haystack.len() && stands_at(haystack, needle, i)
                && forall|k: int| from <= k < i ==> !#[trigger] stands_at(haystack, needle, k),
            None => forall|k: int| from <= k ==> !#[trigger] stands_at(haystack, needle, k),
        },
    decreases haystack.len() - from + 1,
{
    if from <= haystack.len() && !stands_at(haystack, needle, from) {
        lemma_first_at(haystack, needle, from + 1);
    }
}

/// The first position from `from` on where characters stand in others.
pub fn find_from(haystack: &Vec<char>, needle: &Vec<char>, from: usize) -> (r: Option<usize>)
    requires
        from <= haystack@.len(),
    ensures
        match r {
            Some(i) => first_at(haystack@, needle@, from as int) == Some(i as int) && i
                <= haystack@.len() && stands_at(haystack@, needle@, i as int),
            None => first_at(haystack@, needle@, from as int) is None,
        },
{
    let n: usize = haystack.len();
    let mut i: usize = from;
    loop
        invariant
            n == haystack@.len(),
            from <= i <= n,
            first_at(haystack@, needle@, from as int) == first_at(haystack@, needle@, i as int),
        decreases n - i,
    {
        if matches_at(haystack, needle, i) {
            return Some(i);
        }
        if i == n {
            assert(first_at(haystack@, needle@, n + 1) is None);
            return None;
        }
        i += 1;
    }
}

/// Whether one text occurs in another.
pub fn contains_text(haystack: &str, needle: &str) -> (r: bool)
    ensures
        r == occurs(haystack@, needle@),
{
    let h = chars_of(haystack);
    let n = chars_of(needle);
    proof {
        lemma_first_at(h@, n@, 0);
        if first_at(h@, n@, 0) is None {
            assert forall|i: int| !#[trigger] stands_at(h@, n@, i) by {}
        }
    }
    find_from(&h, &n, 0).is_some()
}

/// Whether a text begins with another.
pub fn begins_with(s: &str, prefix: &str) -> (r: bool)
    ensures
        r == stands_at(s@, prefix@, 0),
{
    let h = chars_of(s);
    let n = chars_of(prefix);
    matches_at(&h, &n, 0)
}

// --- Case ------------------------------------------------------------------------------

/// What [`str::to_lowercase`] makes of a text.
pub uninterp spec fn lowercased(s: Seq<char>) -> Seq<char>;

/// [`str::to_lowercase`] of std: every character in its lower case, by Unicode's tables.
/// Nothing is stated of the tables.
#[verifier::external_body]
pub(crate) fn to_lowercase(s: &str) -> (r: String)
    ensures
        r@ == lowercased(s@),
{
    s.to_lowercase()
}

/// Whether a character has the `White_Space` property of Unicode.
pub open spec fn white(c: char) -> bool {
    let code = c as u32;
    ||| 0x9 <= code <= 0xD
    ||| code == 0x20 || code == 0x85 || code == 0xA0 || code == 0x1680
    ||| 0x2000 <= code <= 0x200A
    ||| code == 0x2028 || code == 0x2029 || code == 0x202F || code == 0x205F || code == 0x3000
}

/// [`char::is_whitespace`] of std: whether a character has the `White_Space` property.
pub assume_specification[ char::is_whitespace ](c: char) -> (r: bool)
    ensures
        r == white(c),
;

/// Whether a text is nothing but white space.
pub open spec fn blank(s: Text) -> bool {
    forall|i: int| 0 <= i < s.len() ==> white(#[trigger] s[i])
}

/// Whether a text is nothing but white space.
pub fn is_blank(s: &str) -> (r: bool)
    ensures
        r == blank(s@),
{
    let chars = chars_of(s);
    let n: usize = chars.len();
    for i in 0..n
        invariant
            n == chars@.len(),
            chars@ == s@,
            forall|j: int| 0 <= j < i ==> white(#[trigger] chars@[j]),
    {
        if !chars[i].is_whitespace() {
            return false;
        }
    }
    true
}

/// An ASCII letter in lower case; any other character as it is.
pub open spec fn ascii_lower(c: char) -> char {
    if 'A' <= c <= 'Z' {
        (c as int + 32) as char
    } else {
        c
    }
}

/// An ASCII letter in lower case; any other character as it is.
pub fn lower_char(c: char) -> (r: char)
    ensures
        r == ascii_lower(c),
{
    if 'A' <= c && c <= 'Z' {
        ((c as u8) + 32) as char
    } else {
        c
    }
}

/// A text with its ASCII letters in lower case.
pub open spec fn ascii_lowered(s: Text) -> Text {
    s.map_values(|c: char| ascii_lower(c))
}

/// A text with its ASCII letters in lower case.
pub fn lower_ascii(s: &str) -> (r: String)
    ensures
        r@ == ascii_lowered(s@),
{
    let mut out = String::new();
    for c in it: s.chars()
        invariant
            it.seq() == s@,
            out@ == ascii_lowered(s@).take(it.index()),
    {
        let ghost k = it.index();
        out.push(lower_char(c));
        assert(out@ =~= ascii_lowered(s@).take(k + 1));
    }
    assert(out@ =~= ascii_lowered(s@));
    out
}

// --- Reading -----------------------------------------------------------------------------

/// Whether a character is a decimal digit.
pub open spec fn is_digit(c: char) -> bool {
    '0' <= c <= '9'
}

/// What the first `n` digits say.
pub open spec fn digits_value(s: Text, n: nat) -> int
    decreases n,
{
    if n == 0 {
        0
    } else {
        digits_value(s, (n - 1) as nat) * 10 + (s[n - 1] as int - '0' as int)
    }
}

/// A sign may stand before a number; it changes nothing.
pub open spec fn unsigned_part(s: Text) -> Text {
    if s.len() > 0 && s[0] == '+' {
        s.drop_first()
    } else {
        s
    }
}

/// The index that a text writes in decimal, if it writes one.
pub open spec fn index_in(s: Text) -> Option<int> {
    let t = unsigned_part(s);
    if t.len() > 0 && (forall|i: int| 0 <= i < t.len() ==> is_digit(#[trigger] t[i]))
        && digits_value(t, t.len()) <= usize::MAX {
        Some(digits_value(t, t.len()))
    } else {
        None
    }
}

proof fn lemma_digits_grow(s: Text, a: nat, b: nat)
    requires
        a <= b <= s.len(),
        forall|i: int| 0 <= i < s.len() ==> is_digit(#[trigger] s[i]),
    ensures
        0 <= digits_value(s, a) <= digits_value(s, b),
    decreases b,
{
    if a < b {
        lemma_digits_grow(s, a, (b - 1) as nat);
    } else if a > 0 {
        lemma_digits_grow(s, (a - 1) as nat, (a - 1) as nat);
    }
}

fn digit_value(c: char) -> (r: Option<usize>)
    ensures
        match r {
            Some(d) => is_digit(c) && d == c as int - '0' as int,
            None => !is_digit(c),
        },
{
    match c {
        '0' => Some(0),
        '1' => Some(1),
        '2' => Some(2),
        '3' => Some(3),
        '4' => Some(4),
        '5' => Some(5),
        '6' => Some(6),
        '7' => Some(7),
        '8' => Some(8),
        '9' => Some(9),
        _ => None,
    }
}

/// The index that a text writes in decimal, if it writes one.
pub fn read_index(s: &str) -> (r: Option<usize>)
    ensures
        match r {
            Some(n) => index_in(s@) == Some(n as int),
            None => index_in(s@) is None,
        },
{
    let chars = chars_of(s);
    let n: usize = chars.len();
    let start: usize = if n > 0 && chars[0] == '+' {
        1
    } else {
        0
    };
    let ghost t = unsigned_part(s@);
    assert(t =~= s@.skip(start as int));
    if start == n {
        return None;
    }
    for i in start..n
        invariant
            start <= n == chars@.len(),
            chars@ == s@,
            t == unsigned_part(s@),
            t == s@.skip(start as int),
            forall|k: int| 0 <= k < i - start ==> is_digit(#[trigger] t[k]),
    {
        assert(t[i - start] == chars@[i as int]);
        if digit_value(chars[i]).is_none() {
            return None;
        }
    }
    let mut value: usize = 0;
    for i in start..n
        invariant
            start <= n == chars@.len(),
            start < n,
            chars@ == s@,
            t == unsigned_part(s@),
            t == s@.skip(start as int),
            forall|k: int| 0 <= k < t.len() ==> is_digit(#[trigger] t[k]),
            value == digits_value(t, (i - start) as nat),
    {
        assert(t[i - start] == chars@[i as int]);
        let d: usize = match digit_value(chars[i]) {
            Some(d) => d,
            None => 0,
        };
        proof {
            lemma_digits_grow(t, (i - start + 1) as nat, t.len());
        }
        let grown = value.checked_mul(10);
        let next = match grown {
            Some(v) => v.checked_add(d),
            None => None,
        };
        match next {
            Some(v) => {
                value = v;
            },
            None => {
                return None;
            },
        }
    }
    Some(value)
}

/// The non-empty stretches between marks among the first `n` characters, and what has come
/// since the last mark.
pub open spec fn split_to(s: Text, mark: char, n: nat) -> (Seq<Text>, Text)
    decreases n,
{
    if n == 0 {
        (Seq::empty(), Seq::empty())
    } else {
        let (done, current) = split_to(s, mark, (n - 1) as nat);
        if s[n - 1] == mark {
            (kept(done, current), Seq::empty())
        } else {
            (done, current.push(s[n - 1]))
        }
    }
}

/// A list with a text after it, unless the text is empty.
pub open spec fn kept(done: Seq<Text>, current: Text) -> Seq<Text> {
    if current.len() > 0 {
        done.push(current)
    } else {
        done
    }
}

/// The non-empty stretches of a text between marks.
pub open spec fn parts_of(s: Text, mark: char) -> Seq<Text> {
    let (done, current) = split_to(s, mark, s.len());
    kept(done, current)
}

/// What a list of strings says.
pub open spec fn texts(list: Seq<String>) -> Seq<Text> {
    Seq::new(list.len(), |i: int| list[i]@)
}

fn keep(done: &mut Vec<String>, current: String)
    ensures
        texts(final(done)@) == kept(texts(old(done)@), current@),
{
    let ghost before = texts(done@);
    if chars_of(current.as_str()).len() > 0 {
        done.push(current);
        assert(texts(done@) =~= before.push(current@));
    }
}

/// The non-empty stretches of a text between marks.
pub fn split_parts(s: &str, mark: char) -> (r: Vec<String>)
    ensures
        texts(r@) == parts_of(s@, mark),
{
    let chars = chars_of(s);
    let n: usize = chars.len();
    let mut done: Vec<String> = Vec::new();
    let mut current = String::new();
    assert(texts(done@) =~= Seq::empty());
    assert(current@ =~= Seq::empty());
    for i in 0..n
        invariant
            n == chars@.len(),
            chars@ == s@,
            (texts(done@), current@) == split_to(s@, mark, i as nat),
    {
        if chars[i] == mark {
            let mut taken = String::new();
            std::mem::swap(&mut taken, &mut current);
            keep(&mut done, taken);
            assert(current@ =~= Seq::empty());
        } else {
            current.push(chars[i]);
        }
    }
    keep(&mut done, current);
    done
}

/// A text without the white space it starts with.
pub open spec fn trimmed_front(s: Text) -> Text
    decreases s.len(),
{
    if s.len() > 0 && white(s[0]) {
        trimmed_front(s.drop_first())
    } else {
        s
    }
}

/// A text without the white space it ends with.
pub open spec fn trimmed_back(s: Text) -> Text
    decreases s.len(),
{
    if s.len() > 0 && white(s.last()) {
        trimmed_back(s.drop_last())
    } else {
        s
    }
}

/// A text without the white space around it.
pub open spec fn trimmed(s: Text) -> Text {
    trimmed_back(trimmed_front(s))
}

/// Characters without the white space around them.
pub fn trim(chars: &Vec<char>) -> (r: Vec<char>)
    ensures
        r@ == trimmed(chars@),
{
    let n: usize = chars.len();
    let ghost s = chars@;
    let mut from: usize = 0;
    assert(s.skip(0) =~= s);
    while from < n && chars[from].is_whitespace()
        invariant
            from <= n == chars@.len(),
            s == chars@,
            trimmed_front(s) == trimmed_front(s.skip(from as int)),
        decreases n - from,
    {
        assert(s.skip(from as int).drop_first() =~= s.skip(from + 1));
        from += 1;
    }
    let ghost fronted = trimmed_front(s);
    assert(fronted == s.skip(from as int));
    let mut to: usize = n;
    assert(s.subrange(from as int, n as int) =~= fronted);
    while to > from && chars[to - 1].is_whitespace()
        invariant
            from <= to <= n == chars@.len(),
            s == chars@,
            trimmed_back(fronted) == trimmed_back(s.subrange(from as int, to as int)),
        decreases to,
    {
        assert(s.subrange(from as int, to as int).drop_last() =~= s.subrange(from as int, to - 1));
        to -= 1;
    }
    sliced(chars, from, to)
}

/// A range of characters.
pub fn sliced(chars: &Vec<char>, from: usize, to: usize) -> (r: Vec<char>)
    requires
        from <= to <= chars@.len(),
    ensures
        r@ == chars@.subrange(from as int, to as int),
{
    let mut out: Vec<char> = Vec::new();
    let mut i: usize = from;
    while i < to
        invariant
            from <= i <= to <= chars@.len(),
            out@ == chars@.subrange(from as int, i as int),
        decreases to - i,
    {
        out.push(chars[i]);
        i += 1;
    }
    out
}

/// A string of characters.
pub fn text_from(chars: &Vec<char>) -> (r: String)
    ensures
        r@ == chars@,
{
    let r = text_of(chars, 0, chars.len());
    assert(r@ =~= chars@);
    r
}

/// A text with another in place of each occurrence of a third, from left to right.
pub open spec fn replaced(s: Text, from: Text, to: Text) -> Text
    decreases s.len(),
{
    match first_at(s, from, 0) {
        Some(i) => if from.len() > 0 && 0 <= i && i + from.len() <= s.len() {
            s.take(i) + to + replaced(s.skip(i + from.len()), from, to)
        } else {
            s
        },
        None => s,
    }
}

/// A text with another in place of each occurrence of a third, from left to right.
pub fn replace(chars: &Vec<char>, from: &Vec<char>, to: &Vec<char>) -> (r: Vec<char>)
    requires
        from@.len() > 0,
    ensures
        r@ == replaced(chars@, from@, to@),
{
    let mut done: Vec<char> = Vec::new();
    let mut rest: Vec<char> = sliced(chars, 0, chars.len());
    assert(rest@ =~= chars@);
    assert(done@ + replaced(rest@, from@, to@) =~= replaced(chars@, from@, to@));
    loop
        invariant
            from@.len() > 0,
            done@ + replaced(rest@, from@, to@) == replaced(chars@, from@, to@),
        decreases rest@.len(),
    {
        match find_from(&rest, from, 0) {
            Some(i) => {
                let n: usize = from.len();
                let total: usize = rest.len();
                assert(i + n <= total);
                let mut kept = sliced(&rest, 0, i);
                let mut put = sliced(to, 0, to.len());
                let after = sliced(&rest, i + n, total);
                let ghost before = done@;
                assert(kept@ =~= rest@.take(i as int));
                assert(put@ =~= to@);
                assert(after@ =~= rest@.skip(i + n));
                done.append(&mut kept);
                done.append(&mut put);
                assert(done@ + replaced(after@, from@, to@) =~= before + (rest@.take(i as int)
                    + to@ + replaced(after@, from@, to@)));
                rest = after;
            },
            None => {
                done.append(&mut rest);
                return done;
            },
        }
    }
}

/// Texts one after the other, with a mark between them: the first `n`.
pub open spec fn listed(texts: Seq<Text>, mark: Text, n: nat) -> Text
    decreases n,
{
    if n == 0 {
        Seq::empty()
    } else if n == 1 {
        texts[0]
    } else {
        listed(texts, mark, (n - 1) as nat) + mark + texts[n - 1]
    }
}

/// Strings one after the other, with a mark between them.
pub fn list_of(list: &Vec<String>, mark: &str) -> (r: String)
    ensures
        r@ == listed(texts(list@), mark@, list@.len()),
{
    let n: usize = list.len();
    let mut out = String::new();
    let ghost views = texts(list@);
    assert(out@ =~= Seq::empty());
    for i in 0..n
        invariant
            n == list@.len(),
            views == texts(list@),
            out@ == listed(views, mark@, i as nat),
    {
        assert(views[i as int] == list@[i as int]@);
        if i == 0 {
            out = list[i].clone();
        } else {
            out = joined(joined(out.as_str(), mark).as_str(), list[i].as_str());
        }
    }
    out
}

/// What the `Debug` format of [`str`] makes of a text.
pub uninterp spec fn quoted(s: Seq<char>) -> Seq<char>;

/// The `Debug` format of [`str`] of std: a text in quotes, with what cannot be printed
/// escaped. Nothing is stated of which characters those are.
#[verifier::external_body]
pub(crate) fn quote(s: &str) -> (r: String)
    ensures
        r@ == quoted(s@),
{
    format!("{s:?}")
}

} // verus!
