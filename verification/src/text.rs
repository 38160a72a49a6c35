//! Text as sequences of characters: the searching, trimming, splitting and number
//! formatting that the rest of the crate is built from.

use vstd::prelude::*;

use vstd::string::*;

verus! {

/// `String::push`: appends one character to the end of the string.
pub assume_specification[ std::string::String::push ](s: &mut std::string::String, ch: char)
    ensures
        final(s)@ == old(s)@.push(ch),
;

/// The characters with the Unicode property `White_Space`.
pub open spec fn is_white_space(c: char) -> bool {
    ||| '\u{9}' <= c <= '\u{d}'
    ||| c == ' '
    ||| c == '\u{85}'
    ||| c == '\u{a0}'
    ||| c == '\u{1680}'
    ||| '\u{2000}' <= c <= '\u{200a}'
    ||| c == '\u{2028}'
    ||| c == '\u{2029}'
    ||| c == '\u{202f}'
    ||| c == '\u{205f}'
    ||| c == '\u{3000}'
}

/// Tells whether a character is white space.
pub fn white_space(c: char) -> (r: bool)
    ensures
        r == is_white_space(c),
{
    ('\u{9}' <= c && c <= '\u{d}') || c == ' ' || c == '\u{85}' || c == '\u{a0}' || c == '\u{1680}'
        || ('\u{2000}' <= c && c <= '\u{200a}') || c == '\u{2028}' || c == '\u{2029}' || c
        == '\u{202f}' || c == '\u{205f}' || c == '\u{3000}'
}

/// A set of characters to look for or to trim.
#[derive(Clone, Copy)]
pub enum CharClass {
    White,
    Is(char),
    Either(char, char),
    OneOf(char, char, char),
}

impl CharClass {
    /// The characters of the class.
    pub open spec fn holds(self, c: char) -> bool {
        match self {
            CharClass::White => is_white_space(c),
            CharClass::Is(x) => c == x,
            CharClass::Either(x, y) => c == x || c == y,
            CharClass::OneOf(x, y, z) => c == x || c == y || c == z,
        }
    }

    /// Tells whether a character belongs to the class.
    pub fn has(self, c: char) -> (r: bool)
        ensures
            r == self.holds(c),
    {
        match self {
            CharClass::White => white_space(c),
            CharClass::Is(x) => c == x,
            CharClass::Either(x, y) => c == x || c == y,
            CharClass::OneOf(x, y, z) => c == x || c == y || c == z,
        }
    }
}

/// Index of the first character of a class, or the length where there is none.
pub open spec fn find(s: Seq<char>, k: CharClass) -> int
    decreases s.len(),
{
    if s.len() == 0 || k.holds(s[0]) {
        0
    } else {
        1 + find(s.drop_first(), k)
    }
}

/// Index of the last character of a class, or -1 where there is none.
pub open spec fn rfind(s: Seq<char>, k: CharClass) -> int
    decreases s.len(),
{
    if s.len() == 0 {
        -1
    } else if k.holds(s.last()) {
        s.len() - 1
    } else {
        rfind(s.drop_last(), k)
    }
}

/// The text without the characters of a class at its front.
pub open spec fn strip_front(s: Seq<char>, k: CharClass) -> Seq<char>
    decreases s.len(),
{
    if s.len() > 0 && k.holds(s[0]) {
        strip_front(s.drop_first(), k)
    } else {
        s
    }
}

/// The text without the characters of a class at its back.
pub open spec fn strip_back(s: Seq<char>, k: CharClass) -> Seq<char>
    decreases s.len(),
{
    if s.len() > 0 && k.holds(s.last()) {
        strip_back(s.drop_last(), k)
    } else {
        s
    }
}

/// The text without the characters of a class at either end.
pub open spec fn strip(s: Seq<char>, k: CharClass) -> Seq<char> {
    strip_back(strip_front(s, k), k)
}

/// The text without white space at either end.
pub open spec fn trimmed(s: Seq<char>) -> Seq<char> {
    strip(s, CharClass::White)
}

/// `find` is the one index with no earlier match that is a match or the end.
pub proof fn lemma_find(s: Seq<char>, k: CharClass, i: int)
    requires
        0 <= i <= s.len(),
        forall|j: int| 0 <= j < i ==> !k.holds(#[trigger] s[j]),
        i < s.len() ==> k.holds(s[i]),
    ensures
        find(s, k) == i,
    decreases s.len(),
{
    if s.len() > 0 && i > 0 {
        assert(!k.holds(s[0]));
        assert forall|j: int| 0 <= j < i - 1 implies !k.holds(#[trigger] s.drop_first()[j]) by {
            assert(!k.holds(s[j + 1]));
        }
        lemma_find(s.drop_first(), k, i - 1);
    }
}

/// What `find` returns has no earlier match and is a match or the end.
pub proof fn lemma_find_props(s: Seq<char>, k: CharClass)
    ensures
        0 <= find(s, k) <= s.len(),
        forall|j: int| 0 <= j < find(s, k) ==> !k.holds(#[trigger] s[j]),
        find(s, k) < s.len() ==> k.holds(s[find(s, k)]),
    decreases s.len(),
{
    if s.len() > 0 && !k.holds(s[0]) {
        lemma_find_props(s.drop_first(), k);
        assert forall|j: int| 0 <= j < find(s, k) implies !k.holds(#[trigger] s[j]) by {
            if j > 0 {
                assert(!k.holds(s.drop_first()[j - 1]));
            }
        }
    }
}

/// `rfind` is the one index with no later match that is a match or -1.
pub proof fn lemma_rfind(s: Seq<char>, k: CharClass, i: int)
    requires
        -1 <= i < s.len(),
        forall|j: int| i < j < s.len() ==> !k.holds(#[trigger] s[j]),
        i >= 0 ==> k.holds(s[i]),
    ensures
        rfind(s, k) == i,
    decreases s.len(),
{
    if s.len() > 0 && i < s.len() - 1 {
        assert(!k.holds(s[s.len() - 1]));
        assert forall|j: int| i < j < s.len() - 1 implies !k.holds(#[trigger] s.drop_last()[j]) by {
            assert(!k.holds(s[j]));
        }
        lemma_rfind(s.drop_last(), k, i);
    }
}

/// What `rfind` returns has no later match and is a match or -1.
pub proof fn lemma_rfind_props(s: Seq<char>, k: CharClass)
    ensures
        -1 <= rfind(s, k) < s.len(),
        forall|j: int| rfind(s, k) < j < s.len() ==> !k.holds(#[trigger] s[j]),
        rfind(s, k) >= 0 ==> k.holds(s[rfind(s, k)]),
    decreases s.len(),
{
    if s.len() > 0 && !k.holds(s.last()) {
        lemma_rfind_props(s.drop_last(), k);
        assert forall|j: int| rfind(s, k) < j < s.len() implies !k.holds(#[trigger] s[j]) by {
            if j < s.len() - 1 {
                assert(!k.holds(s.drop_last()[j]));
            }
        }
    }
}

proof fn lemma_strip_front(s: Seq<char>, k: CharClass, i: int)
    requires
        0 <= i <= s.len(),
        forall|j: int| 0 <= j < i ==> k.holds(#[trigger] s[j]),
        i < s.len() ==> !k.holds(s[i]),
    ensures
        strip_front(s, k) == s.skip(i),
    decreases s.len(),
{
    if i > 0 {
        assert(k.holds(s[0]));
        assert forall|j: int| 0 <= j < i - 1 implies k.holds(#[trigger] s.drop_first()[j]) by {
            assert(k.holds(s[j + 1]));
        }
        lemma_strip_front(s.drop_first(), k, i - 1);
        assert(s.drop_first().skip(i - 1) =~= s.skip(i));
    } else {
        assert(s.skip(0) =~= s);
    }
}

proof fn lemma_strip_back(s: Seq<char>, k: CharClass, i: int)
    requires
        0 <= i <= s.len(),
        forall|j: int| i <= j < s.len() ==> k.holds(#[trigger] s[j]),
        i > 0 ==> !k.holds(s[i - 1]),
    ensures
        strip_back(s, k) == s.take(i),
    decreases s.len(),
{
    if i < s.len() {
        assert(k.holds(s[s.len() - 1]));
        assert forall|j: int| i <= j < s.len() - 1 implies k.holds(#[trigger] s.drop_last()[j]) by {
            assert(k.holds(s[j]));
        }
        lemma_strip_back(s.drop_last(), k, i);
        assert(s.drop_last().take(i) =~= s.take(i));
    } else {
        assert(s.take(i) =~= s);
    }
}

/// The text that stripping leaves is a part of the text, with no strippable character at
/// either end.
pub proof fn lemma_strip_props(s: Seq<char>, k: CharClass)
    ensures
        strip(s, k).len() <= s.len(),
        strip(s, k).len() > 0 ==> !k.holds(strip(s, k)[0]) && !k.holds(strip(s, k).last()),
        forall|i: int| 0 <= i < strip(s, k).len() ==> s.contains(#[trigger] strip(s, k)[i]),
{
    lemma_strip_front_props(s, k);
    lemma_strip_back_props(strip_front(s, k), k);
    let f = strip_front(s, k);
    let t = strip(s, k);
    assert forall|i: int| 0 <= i < t.len() implies s.contains(#[trigger] t[i]) by {
        assert(t[i] == f[i]);
        assert(f[i] == s[i + (s.len() - f.len())]);
    }
}

/// What is left of a text is a part of it.
pub proof fn lemma_strip_is_part(s: Seq<char>, k: CharClass) -> (from: int)
    ensures
        0 <= from <= from + strip(s, k).len() <= s.len(),
        strip(s, k) == s.subrange(from, from + strip(s, k).len()),
{
    lemma_strip_front_props(s, k);
    let f = strip_front(s, k);
    lemma_strip_back_props(f, k);
    let from = s.len() - f.len();
    assert(strip(s, k) =~= s.subrange(from, from + strip(s, k).len()));
    from
}

proof fn lemma_strip_front_props(s: Seq<char>, k: CharClass)
    ensures
        strip_front(s, k).len() <= s.len(),
        strip_front(s, k) == s.skip(s.len() - strip_front(s, k).len()),
        strip_front(s, k).len() > 0 ==> !k.holds(strip_front(s, k)[0]),
    decreases s.len(),
{
    if s.len() > 0 && k.holds(s[0]) {
        lemma_strip_front_props(s.drop_first(), k);
        assert(s.drop_first().skip(s.len() - 1 - strip_front(s, k).len()) =~= s.skip(
            s.len() - strip_front(s, k).len(),
        ));
    } else {
        assert(s.skip(0) =~= s);
    }
}

proof fn lemma_strip_back_props(s: Seq<char>, k: CharClass)
    ensures
        strip_back(s, k).len() <= s.len(),
        strip_back(s, k) == s.take(strip_back(s, k).len() as int),
        strip_back(s, k).len() > 0 ==> !k.holds(strip_back(s, k).last()),
    decreases s.len(),
{
    if s.len() > 0 && k.holds(s.last()) {
        lemma_strip_back_props(s.drop_last(), k);
        assert(s.drop_last().take(strip_back(s, k).len() as int) =~= s.take(
            strip_back(s, k).len() as int,
        ));
    } else {
        assert(s.take(s.len() as int) =~= s);
    }
}

/// A text with no strippable character at either end is left as it is.
pub proof fn lemma_strip_id(s: Seq<char>, k: CharClass)
    requires
        s.len() > 0 ==> !k.holds(s[0]) && !k.holds(s.last()),
    ensures
        strip(s, k) == s,
{
}

/// The characters of a text.
pub fn chars_of(s: &str) -> (r: Vec<char>)
    ensures
        r@ == s@,
{
    let mut out: Vec<char> = Vec::new();
    for c in it: s.chars()
        invariant
            it.seq() == s@,
            out@ == s@.take(it.index() as int),
    {
        out.push(c);
        assert(s@.take(it.index() + 1) =~= s@.take(it.index() as int).push(c));
    }
    assert(s@.take(s@.len() as int) =~= s@);
    out
}

/// The text made of a run of characters.
pub fn string_of(s: &Vec<char>, from: usize, to: usize) -> (r: String)
    requires
        from <= to <= s@.len(),
    ensures
        r@ == s@.subrange(from as int, to as int),
{
    let mut out = String::new();
    let mut i: usize = from;
    while i < to
        invariant
            from <= i <= to <= s@.len(),
            out@ == s@.subrange(from as int, i as int),
        decreases to - i,
    {
        out.push(s[i]);
        i = i + 1;
        assert(s@.subrange(from as int, i as int) =~= s@.subrange(from as int, i - 1).push(
            s@[i - 1],
        ));
    }
    out
}

/// A run of characters.
pub fn slice_of(s: &Vec<char>, from: usize, to: usize) -> (r: Vec<char>)
    requires
        from <= to <= s@.len(),
    ensures
        r@ == s@.subrange(from as int, to as int),
{
    let mut out: Vec<char> = Vec::new();
    let mut i: usize = from;
    while i < to
        invariant
            from <= i <= to <= s@.len(),
            out@ == s@.subrange(from as int, i as int),
        decreases to - i,
    {
        out.push(s[i]);
        i = i + 1;
        assert(s@.subrange(from as int, i as int) =~= s@.subrange(from as int, i - 1).push(
            s@[i - 1],
        ));
    }
    out
}

/// The whole run of characters as a text.
pub fn text_of(s: &Vec<char>) -> (r: String)
    ensures
        r@ == s@,
{
    let r = string_of(s, 0, s.len());
    assert(s@.subrange(0, s@.len() as int) =~= s@);
    r
}

/// Finds the first character of a class; the length where there is none.
pub fn find_in(s: &Vec<char>, k: CharClass) -> (r: usize)
    ensures
        r == find(s@, k),
        r <= s@.len(),
        r < s@.len() ==> k.holds(s@[r as int]),
{
    let mut i: usize = 0;
    while i < s.len() && !k.has(s[i])
        invariant
            i <= s@.len(),
            forall|j: int| 0 <= j < i ==> !k.holds(#[trigger] s@[j]),
        decreases s@.len() - i,
    {
        i = i + 1;
    }
    proof {
        lemma_find(s@, k, i as int);
    }
    i
}

/// Finds the last character of a class.
pub fn rfind_in(s: &Vec<char>, k: CharClass) -> (r: Option<usize>)
    ensures
        (match r {
            Some(i) => i == rfind(s@, k) && i < s@.len(),
            None => rfind(s@, k) == -1,
        }),
{
    let mut i: usize = s.len();
    while i > 0 && !k.has(s[i - 1])
        invariant
            i <= s@.len(),
            forall|j: int| i <= j < s@.len() ==> !k.holds(#[trigger] s@[j]),
        decreases i,
    {
        i = i - 1;
    }
    proof {
        lemma_rfind(s@, k, i - 1);
    }
    if i > 0 {
        Some(i - 1)
    } else {
        None
    }
}

/// Drops the characters of a class from the front.
pub fn stripped_front(s: &Vec<char>, k: CharClass) -> (r: Vec<char>)
    ensures
        r@ == strip_front(s@, k),
{
    let mut i: usize = 0;
    while i < s.len() && k.has(s[i])
        invariant
            i <= s@.len(),
            forall|j: int| 0 <= j < i ==> k.holds(#[trigger] s@[j]),
        decreases s@.len() - i,
    {
        i = i + 1;
    }
    proof {
        lemma_strip_front(s@, k, i as int);
        assert(s@.skip(i as int) =~= s@.subrange(i as int, s@.len() as int));
    }
    slice_of(s, i, s.len())
}

/// Drops the characters of a class from the back.
pub fn stripped_back(s: &Vec<char>, k: CharClass) -> (r: Vec<char>)
    ensures
        r@ == strip_back(s@, k),
{
    let mut i: usize = s.len();
    while i > 0 && k.has(s[i - 1])
        invariant
            i <= s@.len(),
            forall|j: int| i <= j < s@.len() ==> k.holds(#[trigger] s@[j]),
        decreases i,
    {
        i = i - 1;
    }
    proof {
        lemma_strip_back(s@, k, i as int);
        assert(s@.take(i as int) =~= s@.subrange(0, i as int));
    }
    slice_of(s, 0, i)
}

/// Drops the characters of a class from both ends.
pub fn stripped(s: &Vec<char>, k: CharClass) -> (r: Vec<char>)
    ensures
        r@ == strip(s@, k),
{
    stripped_back(&stripped_front(s, k), k)
}

/// Drops the white space at both ends.
pub fn trim_text(s: &str) -> (r: String)
    ensures
        r@ == trimmed(s@),
{
    text_of(&stripped(&chars_of(s), CharClass::White))
}

/// Tells whether one text starts with another.
pub open spec fn starts_with(s: Seq<char>, p: Seq<char>) -> bool {
    p.len() <= s.len() && s.take(p.len() as int) == p
}

/// Tells whether the characters from an index on start with a text.
pub fn matches_at(s: &Vec<char>, at: usize, p: &Vec<char>) -> (r: bool)
    requires
        at <= s@.len(),
    ensures
        r == starts_with(s@.skip(at as int), p@),
{
    let n = s.len();
    if n - at < p.len() {
        return false;
    }
    let mut i: usize = 0;
    while i < p.len()
        invariant
            n == s@.len(),
            at <= n,
            p@.len() <= n - at,
            i <= p@.len(),
            forall|j: int| 0 <= j < i ==> s@[at + j] == #[trigger] p@[j],
        decreases p@.len() - i,
    {
        if s[at + i] != p[i] {
            assert(s@.skip(at as int).take(p@.len() as int)[i as int] != p@[i as int]);
            return false;
        }
        i = i + 1;
    }
    assert(s@.skip(at as int).take(p@.len() as int) =~= p@);
    true
}

/// Tells whether a text starts with another.
pub fn has_prefix(s: &str, p: &str) -> (r: bool)
    ensures
        r == starts_with(s@, p@),
{
    let a = chars_of(s);
    let b = chars_of(p);
    assert(a@.skip(0) =~= a@);
    matches_at(&a, 0, &b)
}

/// Index of the first place where a text occurs in another.
pub open spec fn find_text(s: Seq<char>, p: Seq<char>) -> Option<int>
    decreases s.len(),
{
    if starts_with(s, p) {
        Some(0)
    } else if s.len() == 0 {
        None
    } else {
        match find_text(s.drop_first(), p) {
            Some(i) => Some(i + 1),
            None => None,
        }
    }
}

proof fn lemma_find_text_skip(s: Seq<char>, p: Seq<char>, i: int)
    requires
        0 <= i <= s.len(),
        forall|j: int| 0 <= j < i ==> !starts_with(#[trigger] s.skip(j), p),
    ensures
        find_text(s, p) == (match find_text(s.skip(i), p) {
            Some(k) => Some(k + i),
            None => None,
        }),
    decreases i,
{
    assert(s.skip(0) =~= s);
    if i > 0 {
        let t = s.drop_first();
        assert(!starts_with(s.skip(0), p));
        assert forall|j: int| 0 <= j < i - 1 implies !starts_with(#[trigger] t.skip(j), p) by {
            assert(t.skip(j) =~= s.skip(j + 1));
        }
        lemma_find_text_skip(t, p, i - 1);
        assert(t.skip(i - 1) =~= s.skip(i));
    }
}

/// A found text lies within the text searched.
pub proof fn lemma_find_text_props(s: Seq<char>, p: Seq<char>)
    ensures
        find_text(s, p) matches Some(i) ==> 0 <= i && i + p.len() <= s.len() && starts_with(
            s.skip(i),
            p,
        ),
    decreases s.len(),
{
    assert(s.skip(0) =~= s);
    if !starts_with(s, p) && s.len() > 0 {
        lemma_find_text_props(s.drop_first(), p);
        match find_text(s.drop_first(), p) {
            Some(k) => {
                assert(s.drop_first().skip(k) =~= s.skip(k + 1));
            },
            None => {},
        }
    }
}

/// Finds the first place where a text occurs.
pub fn find_text_in(s: &Vec<char>, p: &Vec<char>) -> (r: Option<usize>)
    ensures
        (match r {
            Some(i) => find_text(s@, p@) == Some(i as int) && i + p@.len() <= s@.len(),
            None => find_text(s@, p@) is None,
        }),
{
    let mut i: usize = 0;
    loop
        invariant
            i <= s@.len(),
            forall|j: int| 0 <= j < i ==> !starts_with(#[trigger] s@.skip(j), p@),
        decreases s@.len() - i,
    {
        if matches_at(s, i, p) {
            proof {
                lemma_find_text_skip(s@, p@, i as int);
            }
            return Some(i);
        }
        if i == s.len() {
            proof {
                lemma_find_text_skip(s@, p@, i as int);
            }
            return None;
        }
        i = i + 1;
    }
}

/// The decimal digits of a number below ten.
pub open spec fn digit(n: nat) -> char {
    (48 + n) as char
}

/// A number in decimal, without leading zeros.
pub open spec fn decimal(n: nat) -> Seq<char>
    decreases n,
{
    if n < 10 {
        seq![digit(n)]
    } else {
        decimal(n / 10).push(digit(n % 10))
    }
}

/// One hexadecimal digit in upper case.
pub open spec fn hex_upper(n: nat) -> char {
    if n < 10 {
        (48 + n) as char
    } else {
        (55 + n) as char
    }
}

/// One hexadecimal digit in lower case.
pub open spec fn hex_lower(n: nat) -> char {
    if n < 10 {
        (48 + n) as char
    } else {
        (87 + n) as char
    }
}

/// A number in lower-case hexadecimal, with zeros in front up to a least width.
pub open spec fn hex_padded(n: nat, width: nat) -> Seq<char>
    decreases n, width,
{
    if n == 0 && width == 0 {
        Seq::empty()
    } else {
        hex_padded(n / 16, if width == 0 { 0 } else { (width - 1) as nat }).push(hex_lower(n % 16))
    }
}

/// Writes a number in decimal.
pub fn decimal_text(n: u64) -> (r: String)
    ensures
        r@ == decimal(n as nat),
    decreases n,
{
    let d = (48 + (n % 10) as u8) as char;
    if n < 10 {
        let mut out = String::new();
        out.push(d);
        assert(out@ =~= seq![digit(n as nat)]);
        out
    } else {
        let mut out = decimal_text(n / 10);
        out.push(d);
        out
    }
}

/// Writes a byte as two upper-case hexadecimal digits.
pub fn push_hex_byte(out: &mut String, b: u8)
    ensures
        final(out)@ == old(out)@.push(hex_upper((b / 16) as nat)).push(hex_upper((b % 16) as nat)),
{
    let h = b / 16;
    let l = b % 16;
    out.push(if h < 10 {
        (48 + h) as char
    } else {
        (55 + h) as char
    });
    out.push(if l < 10 {
        (48 + l) as char
    } else {
        (55 + l) as char
    });
}

/// Writes a number in lower-case hexadecimal with at least `width` digits.
pub fn hex_text(n: u64, width: u32) -> (r: String)
    ensures
        r@ == hex_padded(n as nat, width as nat),
    decreases n, width,
{
    if n == 0 && width == 0 {
        String::new()
    } else {
        let w = if width == 0 {
            0
        } else {
            width - 1
        };
        let mut out = hex_text(n / 16, w);
        let d = (n % 16) as u8;
        out.push(if d < 10 {
            (48 + d) as char
        } else {
            (87 + d) as char
        });
        out
    }
}

/// Compares two texts for equality.
pub fn same_text(a: &str, b: &str) -> (r: bool)
    ensures
        r == (a@ == b@),
{
    let mut x = a.chars();
    let mut y = b.chars();
    let ghost mut i: int = 0;
    assert(a@.skip(0) =~= a@);
    assert(b@.skip(0) =~= b@);
    loop
        invariant
            0 <= i <= a@.len(),
            i <= b@.len(),
            vstd::std_specs::iter::IteratorSpec::remaining(&x) == a@.skip(i),
            vstd::std_specs::iter::IteratorSpec::remaining(&y) == b@.skip(i),
            a@.take(i) == b@.take(i),
        decreases a@.len() - i,
    {
        let p = x.next();
        let q = y.next();
        match (p, q) {
            (Some(c), Some(d)) => {
                if c != d {
                    assert(a@[i] != b@[i]);
                    return false;
                }
                proof {
                    assert(a@.skip(i).drop_first() =~= a@.skip(i + 1));
                    assert(b@.skip(i).drop_first() =~= b@.skip(i + 1));
                    assert(a@.take(i + 1) =~= a@.take(i).push(c));
                    assert(b@.take(i + 1) =~= b@.take(i).push(c));
                    i = i + 1;
                }
            },
            (None, None) => {
                assert(a@.take(i) =~= a@);
                assert(b@.take(i) =~= b@);
                return true;
            },
            _ => {
                return false;
            },
        }
    }
}

/// Compares two runs of characters for equality.
pub fn same_chars(x: &Vec<char>, y: &Vec<char>) -> (r: bool)
    ensures
        r == (x@ == y@),
{
    if x.len() != y.len() {
        return false;
    }
    let mut i: usize = 0;
    while i < x.len()
        invariant
            x@.len() == y@.len(),
            i <= x@.len(),
            forall|j: int| 0 <= j < i ==> x@[j] == #[trigger] y@[j],
        decreases x@.len() - i,
    {
        if x[i] != y[i] {
            return false;
        }
        i = i + 1;
    }
    assert(x@ =~= y@);
    true
}

/// Compares two byte strings for equality.
pub fn same_bytes(x: &Vec<u8>, y: &Vec<u8>) -> (r: bool)
    ensures
        r == (x@ == y@),
{
    if x.len() != y.len() {
        return false;
    }
    let mut i: usize = 0;
    while i < x.len()
        invariant
            x@.len() == y@.len(),
            i <= x@.len(),
            forall|j: int| 0 <= j < i ==> x@[j] == #[trigger] y@[j],
        decreases x@.len() - i,
    {
        if x[i] != y[i] {
            return false;
        }
        i = i + 1;
    }
    assert(x@ =~= y@);
    true
}

/// The order of texts by their characters' code points.
pub open spec fn text_lt(a: Seq<char>, b: Seq<char>) -> bool
    decreases a.len(),
{
    if b.len() == 0 {
        false
    } else if a.len() == 0 {
        true
    } else if a[0] != b[0] {
        a[0] < b[0]
    } else {
        text_lt(a.drop_first(), b.drop_first())
    }
}

/// Of two different texts one comes before the other.
pub proof fn lemma_text_lt_total(a: Seq<char>, b: Seq<char>)
    ensures
        a == b || text_lt(a, b) || text_lt(b, a),
        !text_lt(a, a),
        text_lt(a, b) ==> a != b && !text_lt(b, a),
    decreases a.len(),
{
    if a.len() > 0 {
        lemma_text_lt_total(a.drop_first(), a.drop_first());
    }
    if a.len() > 0 && b.len() > 0 && a[0] == b[0] {
        lemma_text_lt_total(a.drop_first(), b.drop_first());
        if a.drop_first() == b.drop_first() {
            assert(a =~= seq![a[0]] + a.drop_first());
            assert(b =~= seq![b[0]] + b.drop_first());
        }
    } else if a.len() == 0 && b.len() == 0 {
        assert(a =~= b);
    }
}

/// The order of texts is transitive.
pub proof fn lemma_text_lt_trans(a: Seq<char>, b: Seq<char>, c: Seq<char>)
    requires
        text_lt(a, b),
        text_lt(b, c),
    ensures
        text_lt(a, c),
    decreases a.len(),
{
    if a.len() > 0 && a[0] == b[0] && b[0] == c[0] {
        lemma_text_lt_trans(a.drop_first(), b.drop_first(), c.drop_first());
    }
}

/// Tells whether one text comes before another.
pub fn text_before(a: &str, b: &str) -> (r: bool)
    ensures
        r == text_lt(a@, b@),
{
    let mut x = a.chars();
    let mut y = b.chars();
    let ghost mut i: int = 0;
    assert(a@.skip(0) =~= a@);
    assert(b@.skip(0) =~= b@);
    loop
        invariant
            0 <= i <= a@.len(),
            i <= b@.len(),
            vstd::std_specs::iter::IteratorSpec::remaining(&x) == a@.skip(i),
            vstd::std_specs::iter::IteratorSpec::remaining(&y) == b@.skip(i),
            text_lt(a@, b@) == text_lt(a@.skip(i), b@.skip(i)),
        decreases a@.len() - i,
    {
        let p = x.next();
        let q = y.next();
        match (p, q) {
            (_, None) => {
                return false;
            },
            (None, Some(_)) => {
                return true;
            },
            (Some(c), Some(d)) => {
                if c != d {
                    return c < d;
                }
                proof {
                    assert(a@.skip(i).drop_first() =~= a@.skip(i + 1));
                    assert(b@.skip(i).drop_first() =~= b@.skip(i + 1));
                    i = i + 1;
                }
            },
        }
    }
}

/// A copy of a text.
pub fn copy_text(s: &str) -> (r: String)
    ensures
        r@ == s@,
{
    s.to_owned()
}

/// A copy of a run of bytes.
pub fn copy_bytes(b: &[u8], from: usize, to: usize) -> (r: Vec<u8>)
    requires
        from <= to <= b@.len(),
    ensures
        r@ == b@.subrange(from as int, to as int),
{
    let mut out: Vec<u8> = Vec::new();
    let mut i: usize = from;
    while i < to
        invariant
            from <= i <= to <= b@.len(),
            out@ == b@.subrange(from as int, i as int),
        decreases to - i,
    {
        out.push(b[i]);
        i = i + 1;
        assert(b@.subrange(from as int, i as int) =~= b@.subrange(from as int, i - 1).push(
            b@[i - 1],
        ));
    }
    out
}

} // verus!
