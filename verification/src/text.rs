//! Character-level helpers shared by the comment scanners and the statement parser.
//!
//! Text is handled as sequences of `char`s. The three character classes that matter are the
//! Unicode `White_Space` property (what `str::trim` and `str::split_whitespace` skip), the
//! ASCII space class (`\t`, `\n`, `\x0B`, `\x0C`, `\r`, ` `) and the blank class (` `, `\t`).
use vstd::prelude::*;

verus! {

broadcast use vstd::string::group_string_axioms;

/// A class of characters.
#[derive(Clone, Copy, PartialEq, Eq, Debug, Structural)]
pub enum CharClass {
    /// The Unicode `White_Space` property.
    Whitespace,
    /// The ASCII space characters: tab, line feed, vertical tab, form feed, carriage return and
    /// space.
    AsciiSpace,
    /// Space and tab.
    Blank,
    /// Everything but the line feed.
    NotNewline,
    /// Everything without the Unicode `White_Space` property.
    NotWhitespace,
    /// Everything but the colon.
    NotColon,
    /// The line feed.
    Newline,
    /// The asterisk.
    Star,
}

/// Whether `c` has the Unicode `White_Space` property.
pub open spec fn is_ws(c: char) -> bool {
    ||| ('\t' <= c && c <= '\r')
    ||| c == ' '
    ||| c == '\u{85}'
    ||| c == '\u{a0}'
    ||| c == '\u{1680}'
    ||| ('\u{2000}' <= c && c <= '\u{200a}')
    ||| c == '\u{2028}'
    ||| c == '\u{2029}'
    ||| c == '\u{202f}'
    ||| c == '\u{205f}'
    ||| c == '\u{3000}'
}

/// Whether `c` is an ASCII space character.
pub open spec fn is_space(c: char) -> bool {
    ('\t' <= c && c <= '\r') || c == ' '
}

/// Whether `c` is a space or a tab.
pub open spec fn is_blank(c: char) -> bool {
    c == ' ' || c == '\t'
}

impl CharClass {
    /// Whether `c` belongs to this class.
    pub open spec fn has(self, c: char) -> bool {
        match self {
            CharClass::Whitespace => is_ws(c),
            CharClass::AsciiSpace => is_space(c),
            CharClass::Blank => is_blank(c),
            CharClass::NotNewline => c != '\n',
            CharClass::NotWhitespace => !is_ws(c),
            CharClass::NotColon => c != ':',
            CharClass::Newline => c == '\n',
            CharClass::Star => c == '*',
        }
    }

    /// Whether `c` belongs to this class.
    pub fn contains(self, c: char) -> (res: bool)
        ensures
            res == self.has(c),
    {
        match self {
            CharClass::Whitespace => is_ws_char(c),
            CharClass::AsciiSpace => ('\t' <= c && c <= '\r') || c == ' ',
            CharClass::Blank => c == ' ' || c == '\t',
            CharClass::NotNewline => c != '\n',
            CharClass::NotWhitespace => !is_ws_char(c),
            CharClass::NotColon => c != ':',
            CharClass::Newline => c == '\n',
            CharClass::Star => c == '*',
        }
    }
}

/// Whether `c` has the Unicode `White_Space` property.
pub fn is_ws_char(c: char) -> (res: bool)
    ensures
        res == is_ws(c),
{
    ('\t' <= c && c <= '\r') || c == ' ' || c == '\u{85}' || c == '\u{a0}' || c == '\u{1680}'
        || ('\u{2000}' <= c && c <= '\u{200a}') || c == '\u{2028}' || c == '\u{2029}' || c
        == '\u{202f}' || c == '\u{205f}' || c == '\u{3000}'
}

/// The end of the run of `class` characters in `s` that starts at `i`.
pub open spec fn run_end(s: Seq<char>, i: int, class: CharClass) -> int
    decreases s.len() - i,
{
    if 0 <= i < s.len() && class.has(s[i]) {
        run_end(s, i + 1, class)
    } else {
        i
    }
}

/// The start of the run of `class` characters in `s` that ends at `j`.
pub open spec fn run_start(s: Seq<char>, j: int, class: CharClass) -> int
    decreases j,
{
    if 0 < j <= s.len() && class.has(s[j - 1]) {
        run_start(s, j - 1, class)
    } else {
        j
    }
}

/// `run_end` stays within the sequence, and stops at the first character outside the class.
pub proof fn lemma_run_end(s: Seq<char>, i: int, class: CharClass)
    requires
        0 <= i <= s.len(),
    ensures
        i <= run_end(s, i, class) <= s.len(),
        forall|k: int| i <= k < run_end(s, i, class) ==> class.has(#[trigger] s[k]),
        run_end(s, i, class) < s.len() ==> !class.has(s[run_end(s, i, class)]),
    decreases s.len() - i,
{
    if i < s.len() && class.has(s[i]) {
        lemma_run_end(s, i + 1, class);
    }
}

/// A run that starts in the second of two texts ends where it ends in that text alone.
pub proof fn lemma_run_end_after(a: Seq<char>, b: Seq<char>, i: int, class: CharClass)
    requires
        0 <= i <= b.len(),
    ensures
        run_end(a + b, a.len() + i, class) == a.len() + run_end(b, i, class),
    decreases b.len() - i,
{
    if i < b.len() {
        assert((a + b)[a.len() + i] == b[i]);
        if class.has(b[i]) {
            lemma_run_end_after(a, b, i + 1, class);
            assert(a.len() + i + 1 == a.len() + (i + 1));
        }
    }
}

/// A run that starts in the first of two texts ends where it ends in that text, or runs on
/// into the second.
pub proof fn lemma_run_end_before(a: Seq<char>, b: Seq<char>, i: int, class: CharClass)
    requires
        0 <= i <= a.len(),
    ensures
        run_end(a + b, i, class) == if run_end(a, i, class) < a.len() {
            run_end(a, i, class)
        } else {
            a.len() + run_end(b, 0, class)
        },
    decreases a.len() - i,
{
    if i < a.len() {
        assert((a + b)[i] == a[i]);
        if class.has(a[i]) {
            lemma_run_end_before(a, b, i + 1, class);
        }
    } else {
        lemma_run_end_after(a, b, 0, class);
    }
}

/// `run_start` stays within the sequence, and stops at the last character outside the class.
pub proof fn lemma_run_start(s: Seq<char>, j: int, class: CharClass)
    requires
        0 <= j <= s.len(),
    ensures
        0 <= run_start(s, j, class) <= j,
        forall|k: int| run_start(s, j, class) <= k < j ==> class.has(#[trigger] s[k]),
        run_start(s, j, class) > 0 ==> !class.has(s[run_start(s, j, class) - 1]),
    decreases j,
{
    if j > 0 && class.has(s[j - 1]) {
        lemma_run_start(s, j - 1, class);
    }
}

/// A run ends where the first character outside the class is.
pub proof fn lemma_run_end_unique(s: Seq<char>, i: int, e: int, class: CharClass)
    requires
        0 <= i <= e <= s.len(),
        forall|k: int| i <= k < e ==> class.has(#[trigger] s[k]),
        e < s.len() ==> !class.has(s[e]),
    ensures
        run_end(s, i, class) == e,
    decreases e - i,
{
    if i < e {
        lemma_run_end_unique(s, i + 1, e, class);
    }
}

/// The end of the run of `class` characters in `s` that starts at `i`.
pub fn skip_class(s: &[char], i: usize, class: CharClass) -> (res: usize)
    requires
        i <= s@.len(),
    ensures
        res == run_end(s@, i as int, class),
        i <= res <= s@.len(),
{
    let mut j = i;
    while j < s.len() && class.contains(s[j])
        invariant
            i <= j <= s@.len(),
            run_end(s@, i as int, class) == run_end(s@, j as int, class),
        decreases s@.len() - j,
    {
        j = j + 1;
    }
    proof {
        lemma_run_end(s@, i as int, class);
    }
    j
}

/// The start of the run of `class` characters in `s` that ends at `j`.
pub fn skip_class_back(s: &[char], j: usize, class: CharClass) -> (res: usize)
    requires
        j <= s@.len(),
    ensures
        res == run_start(s@, j as int, class),
        res <= j,
{
    let mut k = j;
    while k > 0 && class.contains(s[k - 1])
        invariant
            k <= j <= s@.len(),
            run_start(s@, j as int, class) == run_start(s@, k as int, class),
        decreases k,
    {
        k = k - 1;
    }
    proof {
        lemma_run_start(s@, j as int, class);
    }
    k
}

/// `s` without its leading Unicode whitespace, as `str::trim_start` gives it.
pub open spec fn trim_start(s: Seq<char>) -> Seq<char> {
    s.subrange(run_end(s, 0, CharClass::Whitespace), s.len() as int)
}

/// `s` without its trailing Unicode whitespace, as `str::trim_end` gives it.
pub open spec fn trim_end(s: Seq<char>) -> Seq<char> {
    s.subrange(0, run_start(s, s.len() as int, CharClass::Whitespace))
}

/// `s` without leading and trailing Unicode whitespace, as `str::trim` gives it.
pub open spec fn trim(s: Seq<char>) -> Seq<char> {
    trim_end(trim_start(s))
}

/// Copies `s[from..to]` into a new vector.
pub fn copy_range(s: &[char], from: usize, to: usize) -> (res: Vec<char>)
    requires
        from <= to <= s@.len(),
    ensures
        res@ == s@.subrange(from as int, to as int),
{
    let mut v: Vec<char> = Vec::new();
    let mut i = from;
    while i < to
        invariant
            from <= i <= to <= s@.len(),
            v@ == s@.subrange(from as int, i as int),
        decreases to - i,
    {
        v.push(s[i]);
        i = i + 1;
        assert(v@ =~= s@.subrange(from as int, i as int));
    }
    v
}

/// `s` without leading Unicode whitespace.
pub fn trim_start_chars(s: &[char]) -> (res: Vec<char>)
    ensures
        res@ == trim_start(s@),
        res@.len() <= s@.len(),
{
    let a = skip_class(s, 0, CharClass::Whitespace);
    copy_range(s, a, s.len())
}

/// `s` without trailing Unicode whitespace.
pub fn trim_end_chars(s: &[char]) -> (res: Vec<char>)
    ensures
        res@ == trim_end(s@),
        res@.len() <= s@.len(),
{
    let b = skip_class_back(s, s.len(), CharClass::Whitespace);
    copy_range(s, 0, b)
}

/// `s` without leading and trailing Unicode whitespace.
pub fn trim_chars(s: &[char]) -> (res: Vec<char>)
    ensures
        res@ == trim(s@),
        res@.len() <= s@.len(),
{
    let t = trim_start_chars(s);
    trim_end_chars(t.as_slice())
}

/// Appends `s` to `out`.
pub fn push_all(out: &mut Vec<char>, s: &[char])
    ensures
        final(out)@ == old(out)@ + s@,
{
    let ghost start = out@;
    let mut i: usize = 0;
    while i < s.len()
        invariant
            i <= s@.len(),
            out@ == start + s@.subrange(0, i as int),
        decreases s@.len() - i,
    {
        out.push(s[i]);
        i = i + 1;
        assert(out@ =~= start + s@.subrange(0, i as int));
    }
    assert(s@.subrange(0, s@.len() as int) =~= s@);
}

/// Appends the characters of `s` to `out`.
pub fn push_str(out: &mut Vec<char>, s: &str)
    ensures
        final(out)@ == old(out)@ + s@,
{
    let v = chars_of(s);
    push_all(out, v.as_slice());
}

/// Whether `s` holds `prefix` at position `i`.
pub open spec fn has_at(s: Seq<char>, i: int, prefix: Seq<char>) -> bool {
    &&& 0 <= i
    &&& i + prefix.len() <= s.len()
    &&& s.subrange(i, i + prefix.len()) == prefix
}

/// Whether `s` holds `prefix` at position `i`.
pub fn matches_at(s: &[char], i: usize, prefix: &[char]) -> (res: bool)
    ensures
        res == has_at(s@, i as int, prefix@),
{
    if i > s.len() || prefix.len() > s.len() - i {
        return false;
    }
    let mut k: usize = 0;
    while k < prefix.len()
        invariant
            i + prefix@.len() <= s@.len(),
            s@.len() == s.len(),
            k <= prefix@.len(),
            forall|m: int| 0 <= m < k ==> s@[i + m] == prefix@[m],
        decreases prefix@.len() - k,
    {
        if s[i + k] != prefix[k] {
            assert(s@.subrange(i as int, i + prefix@.len())[k as int] != prefix@[k as int]);
            return false;
        }
        k = k + 1;
    }
    assert(s@.subrange(i as int, i + prefix@.len()) =~= prefix@);
    true
}

/// The number of times `c` occurs in `s`.
pub open spec fn count_char(s: Seq<char>, c: char) -> nat
    decreases s.len(),
{
    if s.len() == 0 {
        0
    } else {
        count_char(s.drop_last(), c) + if s.last() == c {
            1nat
        } else {
            0nat
        }
    }
}

/// The number of line feeds in `s[from..to]`, added to `base` without overflowing.
pub fn count_newlines(s: &[char], from: usize, to: usize, base: usize) -> (res: usize)
    requires
        from <= to <= s@.len(),
    ensures
        res == sat_add(base as int, count_char(s@.subrange(from as int, to as int), '\n') as int),
{
    let mut n = base;
    let mut i = from;
    while i < to
        invariant
            from <= i <= to <= s@.len(),
            n == sat_add(base as int, count_char(s@.subrange(from as int, i as int), '\n') as int),
        decreases to - i,
    {
        assert(s@.subrange(from as int, i + 1).drop_last() =~= s@.subrange(from as int, i as int));
        if s[i] == '\n' && n < usize::MAX {
            n = n + 1;
        }
        i = i + 1;
    }
    n
}

/// `a + b`, or `usize::MAX` where that would overflow.
pub open spec fn sat_add(a: int, b: int) -> int {
    if a + b > usize::MAX {
        usize::MAX as int
    } else {
        a + b
    }
}

/// `a - b`, or zero where that would be negative.
pub open spec fn sat_sub(a: int, b: int) -> int {
    if a >= b {
        a - b
    } else {
        0
    }
}

/// The number of bytes that `c` takes in UTF-8.
pub open spec fn utf8_width(c: char) -> nat {
    if (c as u32) < 0x80 {
        1
    } else if (c as u32) < 0x800 {
        2
    } else if (c as u32) < 0x10000 {
        3
    } else {
        4
    }
}

/// The number of bytes that `s` takes in UTF-8.
pub open spec fn utf8_len(s: Seq<char>) -> nat
    decreases s.len(),
{
    if s.len() == 0 {
        0
    } else {
        utf8_len(s.drop_last()) + utf8_width(s.last())
    }
}

/// The number of bytes that `s[from..to]` takes in UTF-8, added to `base` without
/// overflowing.
pub fn utf8_len_of(s: &[char], from: usize, to: usize, base: usize) -> (res: usize)
    requires
        from <= to <= s@.len(),
    ensures
        res == sat_add(base as int, utf8_len(s@.subrange(from as int, to as int)) as int),
{
    let mut n = base;
    let mut i = from;
    while i < to
        invariant
            from <= i <= to <= s@.len(),
            n == sat_add(base as int, utf8_len(s@.subrange(from as int, i as int)) as int),
        decreases to - i,
    {
        assert(s@.subrange(from as int, i + 1).drop_last() =~= s@.subrange(from as int, i as int));
        let c = s[i];
        let w: usize = if (c as u32) < 0x80 {
            1
        } else if (c as u32) < 0x800 {
            2
        } else if (c as u32) < 0x10000 {
            3
        } else {
            4
        };
        if n <= usize::MAX - w {
            n = n + w;
        } else {
            n = usize::MAX;
        }
        i = i + 1;
    }
    n
}

/// The number of bytes that `c` takes in UTF-8.
pub fn utf8_width_of(c: char) -> (res: usize)
    ensures
        res == utf8_width(c),
{
    if (c as u32) < 0x80 {
        1
    } else if (c as u32) < 0x800 {
        2
    } else if (c as u32) < 0x10000 {
        3
    } else {
        4
    }
}

/// The number of characters of `s`, from `c` on, that fit in the first `b` bytes of `s`: the
/// character index at byte offset `b`, rounded down to a character boundary.
pub open spec fn char_at_byte(s: Seq<char>, b: int, c: int) -> int
    decreases s.len() - c,
{
    if 0 <= c < s.len() && utf8_len(s.subrange(0, c + 1)) <= b {
        char_at_byte(s, b, c + 1)
    } else {
        c
    }
}

/// The character index of `s` at byte offset `b`, rounded down to a character boundary.
pub fn char_index_at_byte(s: &[char], b: usize) -> (res: usize)
    ensures
        res == char_at_byte(s@, b as int, 0),
        res <= s@.len(),
{
    let mut c: usize = 0;
    let mut acc: usize = 0;
    while c < s.len()
        invariant
            c <= s@.len(),
            acc == utf8_len(s@.subrange(0, c as int)),
            acc <= b,
            char_at_byte(s@, b as int, 0) == char_at_byte(s@, b as int, c as int),
        decreases s@.len() - c,
    {
        assert(s@.subrange(0, c + 1).drop_last() =~= s@.subrange(0, c as int));
        let w = utf8_width_of(s[c]);
        if w > b - acc {
            return c;
        }
        acc = acc + w;
        c = c + 1;
    }
    c
}

/// Whether `c` is an ASCII word character: a letter, a digit or an underscore.
pub open spec fn ascii_word(c: char) -> bool {
    ('0' <= c && c <= '9') || ('A' <= c && c <= 'Z') || ('a' <= c && c <= 'z') || c == '_'
}

/// Whether `regex_syntax` counts a character beyond ASCII as a word character (`\\w` in a
/// Unicode-aware regular expression, as used for word boundaries).
pub uninterp spec fn unicode_word(c: char) -> bool;

/// Whether `c` is a word character: an ASCII word character, or beyond ASCII one that
/// `regex_syntax` counts as such.
pub open spec fn word_char(c: char) -> bool {
    if (c as u32) < 0x80 {
        ascii_word(c)
    } else {
        unicode_word(c)
    }
}

/// Whether `c` is a word character, by `regex_syntax::is_word_character`.
///
/// The contract states the ASCII part of the answer, which the crate decides with
/// `is_word_byte` (`[_0-9a-zA-Z]`; its Unicode table holds no other ASCII character), and
/// names the rest `unicode_word(c)`: beyond ASCII the crate decides by the Unicode
/// `Alphabetic` and `Join_Control` properties and the `Decimal_Number`, `Mark` and
/// `Connector_Punctuation` categories, which are not restated here.
#[verifier::external_body]
pub(crate) fn is_word_char(c: char) -> (res: bool)
    ensures
        res == (if (c as u32) < 0x80 {
            ascii_word(c)
        } else {
            unicode_word(c)
        }),
{
    regex_syntax::is_word_character(c)
}

/// Copies the characters of `s` into a vector.
pub fn chars_of(s: &str) -> (res: Vec<char>)
    ensures
        res@ == s@,
{
    let mut v: Vec<char> = Vec::new();
    for c in it: s.chars()
        invariant
            v@ == it.seq().take(it.index() as int),
    {
        v.push(c);
    }
    v
}

/// Collects characters into a `String`.
///
/// Calls `FromIterator<&char>` for `String` from the standard library, which appends each
/// character in turn: the result holds exactly the characters of `v`, in order.
#[verifier::external_body]
pub(crate) fn string_of(v: &[char]) -> (res: String)
    ensures
        res@ == v@,
{
    v.iter().collect()
}

/// The words of `s[i..]` (its maximal runs of characters without the Unicode `White_Space`
/// property) joined by single spaces, as `str::split_whitespace` splits them. `sep` says
/// whether a space is owed before the next word, `any` whether a word came before.
pub open spec fn squash_from(s: Seq<char>, i: int, sep: bool, any: bool) -> Seq<char>
    decreases s.len() - i,
{
    if i < 0 || i >= s.len() {
        seq![]
    } else if is_ws(s[i]) {
        squash_from(s, i + 1, any, any)
    } else {
        (if sep {
            seq![' ', s[i]]
        } else {
            seq![s[i]]
        }) + squash_from(s, i + 1, false, true)
    }
}

/// The words of `s` joined by single spaces: leading and trailing whitespace dropped, every
/// run of whitespace between two words made one space.
pub open spec fn squash(s: Seq<char>) -> Seq<char> {
    squash_from(s, 0, false, false)
}

/// No squashed text holds a line feed.
pub proof fn lemma_squash_no_newline(s: Seq<char>, i: int, sep: bool, any: bool)
    requires
        0 <= i,
    ensures
        !squash_from(s, i, sep, any).contains('\n'),
    decreases s.len() - i,
{
    if i < s.len() {
        if is_ws(s[i]) {
            lemma_squash_no_newline(s, i + 1, any, any);
        } else {
            lemma_squash_no_newline(s, i + 1, false, true);
            let head = if sep {
                seq![' ', s[i]]
            } else {
                seq![s[i]]
            };
            let rest = squash_from(s, i + 1, false, true);
            assert forall|k: int| 0 <= k < head.len() + rest.len() implies (head + rest)[k] != '\n' by {
                if k >= head.len() {
                    assert((head + rest)[k] == rest[k - head.len()]);
                }
            }
        }
    }
}

/// The words of `s` joined by single spaces; see [`squash`].
pub fn squash_chars(s: &[char]) -> (res: Vec<char>)
    ensures
        res@ == squash(s@),
{
    let mut out: Vec<char> = Vec::new();
    let mut sep = false;
    let mut any = false;
    let mut i: usize = 0;
    while i < s.len()
        invariant
            i <= s@.len(),
            out@ + squash_from(s@, i as int, sep, any) == squash(s@),
        decreases s@.len() - i,
    {
        let c = s[i];
        let ghost before = out@;
        let ghost (sep0, any0) = (sep, any);
        if is_ws_char(c) {
            sep = any;
        } else {
            if sep {
                out.push(' ');
            }
            out.push(c);
            sep = false;
            any = true;
            proof {
                let head = if sep0 {
                    seq![' ', c]
                } else {
                    seq![c]
                };
                assert(out@ =~= before + head);
                assert(before + (head + squash_from(s@, i + 1, false, true)) =~= out@ + squash_from(
                    s@,
                    i + 1,
                    false,
                    true,
                ));
            }
        }
        i = i + 1;
    }
    assert(out@ + squash_from(s@, i as int, sep, any) =~= out@);
    out
}

/// Whether `s` holds the character `c`.
pub fn contains_char(s: &[char], c: char) -> (res: bool)
    ensures
        res == s@.contains(c),
{
    let mut i: usize = 0;
    while i < s.len()
        invariant
            i <= s@.len(),
            forall|k: int| 0 <= k < i ==> s@[k] != c,
        decreases s@.len() - i,
    {
        if s[i] == c {
            assert(s@[i as int] == c);
            return true;
        }
        i = i + 1;
    }
    false
}

} // verus!
