//! The languages whose comments can be searched for Y-Statements.
use vstd::prelude::*;

verus! {

/// The language of a source file, which decides how its comments are found.
#[derive(Debug, Clone, Copy, PartialEq, Eq, Hash, Structural)]
#[non_exhaustive]
pub enum Language {
    /// `.rs`
    Rust,
    /// `.py`
    Python,
    /// `.nix`
    Nix,
    /// `.ts`
    TypeScript,
}

impl Language {
    /// Every language this version can parse.
    pub const ALL: &'static [Language; 4] = &[
        Language::Rust,
        Language::Python,
        Language::Nix,
        Language::TypeScript,
    ];

    /// The canonical file extension of a language, without a leading `.`.
    pub open spec fn spec_extension(self) -> Seq<char> {
        match self {
            Language::Rust => seq!['r', 's'],
            Language::Python => seq!['p', 'y'],
            Language::Nix => seq!['n', 'i', 'x'],
            Language::TypeScript => seq!['t', 's'],
        }
    }

    /// The name of a language, as `from_str` accepts it.
    pub open spec fn spec_name(self) -> Seq<char> {
        match self {
            Language::Rust => seq!['r', 'u', 's', 't'],
            Language::Python => seq!['p', 'y', 't', 'h', 'o', 'n'],
            Language::Nix => seq!['n', 'i', 'x'],
            Language::TypeScript => seq!['t', 'y', 'p', 'e', 's', 'c', 'r', 'i', 'p', 't'],
        }
    }

    /// The language whose canonical extension is `ext`, if any.
    pub open spec fn spec_from_extension(ext: Seq<char>) -> Option<Language> {
        if ext == Language::Rust.spec_extension() {
            Some(Language::Rust)
        } else if ext == Language::Python.spec_extension() {
            Some(Language::Python)
        } else if ext == Language::Nix.spec_extension() {
            Some(Language::Nix)
        } else if ext == Language::TypeScript.spec_extension() {
            Some(Language::TypeScript)
        } else {
            None
        }
    }

    /// Returns the language conventionally written in files with the given extension (given
    /// without a leading `.`, and compared exactly), or `None` for anything else.
    pub fn from_extension(extension: &str) -> (res: Option<Language>)
        ensures
            res == Language::spec_from_extension(extension@),
    {
        proof {
            reveal_strlit("rs");
            reveal_strlit("py");
            reveal_strlit("nix");
            reveal_strlit("ts");
            assert("rs"@ =~= Language::Rust.spec_extension());
            assert("py"@ =~= Language::Python.spec_extension());
            assert("nix"@ =~= Language::Nix.spec_extension());
            assert("ts"@ =~= Language::TypeScript.spec_extension());
        }
        if str_equals(extension, "rs") {
            Some(Language::Rust)
        } else if str_equals(extension, "py") {
            Some(Language::Python)
        } else if str_equals(extension, "nix") {
            Some(Language::Nix)
        } else if str_equals(extension, "ts") {
            Some(Language::TypeScript)
        } else {
            None
        }
    }

    /// Returns the canonical file extension of this language, without a leading `.`.
    pub fn extension(self) -> (res: &'static str)
        ensures
            res@ == self.spec_extension(),
    {
        proof {
            reveal_strlit("rs");
            reveal_strlit("py");
            reveal_strlit("nix");
            reveal_strlit("ts");
        }
        match self {
            Language::Rust => "rs",
            Language::Python => "py",
            Language::Nix => "nix",
            Language::TypeScript => "ts",
        }
    }

    /// Returns the name of this language, as accepted by `from_str`.
    pub fn name(self) -> (res: &'static str)
        ensures
            res@ == self.spec_name(),
    {
        proof {
            reveal_strlit("rust");
            reveal_strlit("python");
            reveal_strlit("nix");
            reveal_strlit("typescript");
        }
        match self {
            Language::Rust => "rust",
            Language::Python => "python",
            Language::Nix => "nix",
            Language::TypeScript => "typescript",
        }
    }
}

/// Maps an ASCII upper-case letter to lower case and leaves every other character alone.
pub open spec fn ascii_lower(c: char) -> char {
    if 'A' <= c && c <= 'Z' {
        ((c as u32) + 32) as char
    } else {
        c
    }
}

/// Whether `a` and `b` are the same text up to the case of ASCII letters, as
/// `str::eq_ignore_ascii_case` decides it for a name made of ASCII characters.
pub open spec fn same_ignoring_ascii_case(a: Seq<char>, b: Seq<char>) -> bool {
    &&& a.len() == b.len()
    &&& forall|i: int| 0 <= i < a.len() ==> ascii_lower(#[trigger] a[i]) == ascii_lower(b[i])
}

fn lower_char(c: char) -> (res: char)
    ensures
        res == ascii_lower(c),
{
    if 'A' <= c && c <= 'Z' {
        let code: u32 = (c as u32) + 32;
        assert(code == (c as u32) + 32);
        assert(0x61 <= code <= 0x7a);
        char_from_ascii_code(code)
    } else {
        c
    }
}

fn char_from_ascii_code(code: u32) -> (res: char)
    requires
        code < 128,
    ensures
        res == code as char,
{
    (code as u8) as char
}

fn eq_ignore_ascii_case(a: &str, b: &str) -> (res: bool)
    ensures
        res == same_ignoring_ascii_case(a@, b@),
{
    let n = a.unicode_len();
    if n != b.unicode_len() {
        return false;
    }
    let mut i: usize = 0;
    while i < n
        invariant
            n == a@.len(),
            n == b@.len(),
            i <= n,
            forall|j: int| 0 <= j < i ==> ascii_lower(#[trigger] a@[j]) == ascii_lower(b@[j]),
        decreases n - i,
    {
        if lower_char(a.get_char(i)) != lower_char(b.get_char(i)) {
            return false;
        }
        i = i + 1;
    }
    true
}

/// The error returned when a string does not name a language this version can parse.
#[derive(Debug, Clone, PartialEq, Eq)]
pub struct UnknownLanguage(String);

impl View for UnknownLanguage {
    type V = Seq<char>;

    closed spec fn view(&self) -> Seq<char> {
        self.0@
    }
}

/// The text of the error message of an [`UnknownLanguage`] for the string `s`.
pub open spec fn unknown_language_message(s: Seq<char>) -> Seq<char> {
    "unknown language '"@ + s + "', expected one of '"@ + Language::Rust.spec_name() + "', '"@
        + Language::Python.spec_name() + "', '"@ + Language::Nix.spec_name() + "', '"@
        + Language::TypeScript.spec_name() + "'"@
}

impl UnknownLanguage {
    /// Returns the string that failed to parse.
    pub fn unrecognized(&self) -> (res: &str)
        ensures
            res@ == self@,
    {
        self.0.as_str()
    }

    /// The error message: the string that failed to parse, followed by every name that is
    /// accepted.
    pub fn to_string(&self) -> (res: String)
        ensures
            res@ == unknown_language_message(self@),
    {
        let mut out = String::new();
        out.append("unknown language '");
        out.append(self.0.as_str());
        out.append("', expected one of '");
        out.append(Language::Rust.name());
        out.append("', '");
        out.append(Language::Python.name());
        out.append("', '");
        out.append(Language::Nix.name());
        out.append("', '");
        out.append(Language::TypeScript.name());
        out.append("'");
        out
    }
}

/// The first language of [`Language::ALL`] whose name is `s` up to ASCII case.
pub open spec fn spec_from_name(s: Seq<char>) -> Option<Language> {
    if same_ignoring_ascii_case(Language::Rust.spec_name(), s) {
        Some(Language::Rust)
    } else if same_ignoring_ascii_case(Language::Python.spec_name(), s) {
        Some(Language::Python)
    } else if same_ignoring_ascii_case(Language::Nix.spec_name(), s) {
        Some(Language::Nix)
    } else if same_ignoring_ascii_case(Language::TypeScript.spec_name(), s) {
        Some(Language::TypeScript)
    } else {
        None
    }
}

impl Language {
    /// Parses a language from its name, ignoring ASCII case; an unknown name is handed back
    /// inside the error.
    pub fn from_name(s: &str) -> (res: Result<Language, UnknownLanguage>)
        ensures
            match res {
                Ok(l) => spec_from_name(s@) == Some(l),
                Err(e) => spec_from_name(s@) is None && e@ == s@,
            },
    {
        let mut i: usize = 0;
        while i < 4
            invariant
                i <= 4,
                forall|j: int|
                    0 <= j < i ==> !same_ignoring_ascii_case(
                        #[trigger] Language::ALL@[j].spec_name(),
                        s@,
                    ),
            decreases 4 - i,
        {
            let l = Language::ALL[i];
            if eq_ignore_ascii_case(l.name(), s) {
                return Ok(l);
            }
            i = i + 1;
        }
        Err(UnknownLanguage(s.to_owned()))
    }

    /// The name of this language, as an owned string.
    pub fn to_string(self) -> (res: String)
        ensures
            res@ == self.spec_name(),
    {
        self.name().to_owned()
    }
}

impl std::str::FromStr for Language {
    type Err = UnknownLanguage;

    /// Parses a language from its name, as [`Language::from_name`] does.
    fn from_str(s: &str) -> (res: Result<Language, UnknownLanguage>)
        ensures
            match res {
                Ok(l) => spec_from_name(s@) == Some(l),
                Err(e) => spec_from_name(s@) is None && e@ == s@,
            },
    {
        Language::from_name(s)
    }
}

/// Every language is reached again from its own extension.
pub proof fn lemma_extension_round_trip(l: Language)
    ensures
        Language::spec_from_extension(l.spec_extension()) == Some(l),
{
    assert(seq!['r', 's'] != seq!['p', 'y']) by {
        assert(seq!['r', 's'][0] != seq!['p', 'y'][0]);
    }
    assert(seq!['r', 's'] != seq!['n', 'i', 'x']);
    assert(seq!['p', 'y'] != seq!['n', 'i', 'x']);
    assert(seq!['r', 's'] != seq!['t', 's']) by {
        assert(seq!['r', 's'][0] != seq!['t', 's'][0]);
    }
    assert(seq!['p', 'y'] != seq!['t', 's']) by {
        assert(seq!['p', 'y'][0] != seq!['t', 's'][0]);
    }
    assert(seq!['n', 'i', 'x'] != seq!['t', 's']);
}

/// Every language is reached again from its own name, in any ASCII case.
pub proof fn lemma_name_round_trip(l: Language)
    ensures
        spec_from_name(l.spec_name()) == Some(l),
{
    let r = Language::Rust.spec_name();
    let p = Language::Python.spec_name();
    let n = Language::Nix.spec_name();
    let t = Language::TypeScript.spec_name();
    assert(same_ignoring_ascii_case(l.spec_name(), l.spec_name()));
    assert(!same_ignoring_ascii_case(r, p));
    assert(!same_ignoring_ascii_case(r, n));
    assert(!same_ignoring_ascii_case(r, t));
    assert(!same_ignoring_ascii_case(p, n));
    assert(!same_ignoring_ascii_case(p, t));
    assert(!same_ignoring_ascii_case(n, t)) by {
        assert(ascii_lower(n[0]) != ascii_lower(t[0]));
    }
}

/// Two different languages never share an extension or a name.
pub proof fn lemma_extensions_and_names_unique(a: Language, b: Language)
    requires
        a != b,
    ensures
        a.spec_extension() != b.spec_extension(),
        a.spec_name() != b.spec_name(),
{
    lemma_extension_round_trip(a);
    lemma_extension_round_trip(b);
    lemma_name_round_trip(a);
    lemma_name_round_trip(b);
}

/// Whether two strings hold the same characters.
pub fn str_equals(a: &str, b: &str) -> (res: bool)
    ensures
        res == (a@ == b@),
{
    let n = a.unicode_len();
    if n != b.unicode_len() {
        return false;
    }
    let mut i: usize = 0;
    while i < n
        invariant
            n == a@.len(),
            n == b@.len(),
            i <= n,
            forall|j: int| 0 <= j < i ==> a@[j] == b@[j],
        decreases n - i,
    {
        if a.get_char(i) != b.get_char(i) {
            return false;
        }
        i = i + 1;
    }
    assert(a@ =~= b@);
    true
}

} // verus!
