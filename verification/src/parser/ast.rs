//! The abstract syntax tree of a Gel document, and the classification of the
//! regular expressions that have a byte-scanning fast path.

use vstd::prelude::*;
use crate::text::str_eq;
use crate::pattern::CompiledRegex;

verus! {

/// Classification of regex patterns for fast-path dispatch: each variant stands for
/// one pattern text whose matches the runtime finds by scanning bytes.
#[derive(Debug, Clone, Copy, PartialEq, Eq, Structural, Default)]
pub enum FastPathKind {
    /// `[^\n]*\n`
    SkipToNewline,
    /// `[^\n]+\n`
    SkipToNewlinePlus,
    /// `[^\r\n]*[\r\n]`
    SkipToCrLf,
    /// `[^\r\n]+[\r\n]`
    SkipToCrLfPlus,
    /// `[!#][^\r\n]*[\r\n]`
    CommentBangHash,
    /// `#[^\r\n]*[\r\n]+`
    CommentHashPlus,
    /// `.*\n` or `.*?\n`
    DotStarNewline,
    /// `\s+`
    Whitespace,
    /// `\S+`
    NonWhitespace,
    /// `\d+`
    Digits,
    /// `\w+`
    WordChars,
    /// `[\t ]+`
    HorizWhitespace,
    /// `[\r\n]+`
    CrLfPlus,
    /// `[\r\n]`
    CrLf,
    /// `[^\r\n]+`
    NonCrLfPlus,
    /// `[^\r\n]*`
    NonCrLfStar,
    /// `[^\r\n]`
    NonCrLf,
    /// ` *[\r\n]+`
    SpacesNewlines,
    /// `\r?\n`
    OptCrNl,
    /// `(?:\r?\n)+`
    OptCrNlPlus,
    /// `[^\r\n]*\r?\n`
    SkipToOptCrNl,
    /// `[^\r\n]+\r?\n`
    SkipToOptCrNlPlus,
    /// `[!#][^\r\n]*\r?\n`
    CommentBangHashOpt,
    /// `#[^\r\n]*(?:\r?\n)+`
    CommentHashPlusOpt,
    /// ` *(?:\r?\n)+`
    SpacesOptCrNlPlus,
    /// `\n`
    Newline,
    /// `.`
    Dot,
    /// Not classified: the regex engine decides.
    #[default]
    Unclassified,
}

/// The pattern texts that have a fast path, and the kind each stands for.
pub open spec fn classify_spec(p: Seq<char>) -> FastPathKind {
    if p == "[^\\n]*\\n"@ {
        FastPathKind::SkipToNewline
    } else if p == "[^\\n]+\\n"@ {
        FastPathKind::SkipToNewlinePlus
    } else if p == "[^\\r\\n]*[\\r\\n]"@ {
        FastPathKind::SkipToCrLf
    } else if p == "[^\\r\\n]+[\\r\\n]"@ {
        FastPathKind::SkipToCrLfPlus
    } else if p == "[!#][^\\r\\n]*[\\r\\n]"@ {
        FastPathKind::CommentBangHash
    } else if p == "#[^\\r\\n]*[\\r\\n]+"@ {
        FastPathKind::CommentHashPlus
    } else if p == ".*\\n"@ || p == ".*?\\n"@ {
        FastPathKind::DotStarNewline
    } else if p == "\\s+"@ {
        FastPathKind::Whitespace
    } else if p == "\\S+"@ {
        FastPathKind::NonWhitespace
    } else if p == "\\d+"@ {
        FastPathKind::Digits
    } else if p == "\\w+"@ {
        FastPathKind::WordChars
    } else if p == "[\\t ]+"@ {
        FastPathKind::HorizWhitespace
    } else if p == "[\\r\\n]+"@ {
        FastPathKind::CrLfPlus
    } else if p == "[\\r\\n]"@ {
        FastPathKind::CrLf
    } else if p == "[^\\r\\n]+"@ {
        FastPathKind::NonCrLfPlus
    } else if p == "[^\\r\\n]*"@ {
        FastPathKind::NonCrLfStar
    } else if p == "[^\\r\\n]"@ {
        FastPathKind::NonCrLf
    } else if p == " *[\\r\\n]+"@ {
        FastPathKind::SpacesNewlines
    } else if p == "\\r?\\n"@ {
        FastPathKind::OptCrNl
    } else if p == "(?:\\r?\\n)+"@ {
        FastPathKind::OptCrNlPlus
    } else if p == "[^\\r\\n]*\\r?\\n"@ {
        FastPathKind::SkipToOptCrNl
    } else if p == "[^\\r\\n]+\\r?\\n"@ {
        FastPathKind::SkipToOptCrNlPlus
    } else if p == "[!#][^\\r\\n]*\\r?\\n"@ {
        FastPathKind::CommentBangHashOpt
    } else if p == "#[^\\r\\n]*(?:\\r?\\n)+"@ {
        FastPathKind::CommentHashPlusOpt
    } else if p == " *(?:\\r?\\n)+"@ {
        FastPathKind::SpacesOptCrNlPlus
    } else if p == "\\n"@ {
        FastPathKind::Newline
    } else if p == "."@ {
        FastPathKind::Dot
    } else {
        FastPathKind::Unclassified
    }
}

/// Classify a raw regex pattern string into a [`FastPathKind`].
pub fn classify_fast_path(pattern: &str) -> (r: FastPathKind)
    ensures
        r == classify_spec(pattern@),
{
    if str_eq(pattern, "[^\\n]*\\n") {
        FastPathKind::SkipToNewline
    } else if str_eq(pattern, "[^\\n]+\\n") {
        FastPathKind::SkipToNewlinePlus
    } else if str_eq(pattern, "[^\\r\\n]*[\\r\\n]") {
        FastPathKind::SkipToCrLf
    } else if str_eq(pattern, "[^\\r\\n]+[\\r\\n]") {
        FastPathKind::SkipToCrLfPlus
    } else if str_eq(pattern, "[!#][^\\r\\n]*[\\r\\n]") {
        FastPathKind::CommentBangHash
    } else if str_eq(pattern, "#[^\\r\\n]*[\\r\\n]+") {
        FastPathKind::CommentHashPlus
    } else if str_eq(pattern, ".*\\n") || str_eq(pattern, ".*?\\n") {
        FastPathKind::DotStarNewline
    } else if str_eq(pattern, "\\s+") {
        FastPathKind::Whitespace
    } else if str_eq(pattern, "\\S+") {
        FastPathKind::NonWhitespace
    } else if str_eq(pattern, "\\d+") {
        FastPathKind::Digits
    } else if str_eq(pattern, "\\w+") {
        FastPathKind::WordChars
    } else if str_eq(pattern, "[\\t ]+") {
        FastPathKind::HorizWhitespace
    } else if str_eq(pattern, "[\\r\\n]+") {
        FastPathKind::CrLfPlus
    } else if str_eq(pattern, "[\\r\\n]") {
        FastPathKind::CrLf
    } else if str_eq(pattern, "[^\\r\\n]+") {
        FastPathKind::NonCrLfPlus
    } else if str_eq(pattern, "[^\\r\\n]*") {
        FastPathKind::NonCrLfStar
    } else if str_eq(pattern, "[^\\r\\n]") {
        FastPathKind::NonCrLf
    } else if str_eq(pattern, " *[\\r\\n]+") {
        FastPathKind::SpacesNewlines
    } else if str_eq(pattern, "\\r?\\n") {
        FastPathKind::OptCrNl
    } else if str_eq(pattern, "(?:\\r?\\n)+") {
        FastPathKind::OptCrNlPlus
    } else if str_eq(pattern, "[^\\r\\n]*\\r?\\n") {
        FastPathKind::SkipToOptCrNl
    } else if str_eq(pattern, "[^\\r\\n]+\\r?\\n") {
        FastPathKind::SkipToOptCrNlPlus
    } else if str_eq(pattern, "[!#][^\\r\\n]*\\r?\\n") {
        FastPathKind::CommentBangHashOpt
    } else if str_eq(pattern, "#[^\\r\\n]*(?:\\r?\\n)+") {
        FastPathKind::CommentHashPlusOpt
    } else if str_eq(pattern, " *(?:\\r?\\n)+") {
        FastPathKind::SpacesOptCrNlPlus
    } else if str_eq(pattern, "\\n") {
        FastPathKind::Newline
    } else if str_eq(pattern, ".") {
        FastPathKind::Dot
    } else {
        FastPathKind::Unclassified
    }
}

} // verus!

verus! {

// ---------------------------------------------------------------------------
// Name-keyed map
// ---------------------------------------------------------------------------

/// A map from names to values that keeps insertion order; each name occurs once.
#[derive(Debug, Clone)]
pub struct NameMap<V> {
    pub entries: Vec<(String, V)>,
}

/// The index of the entry named `k`, if any.
pub open spec fn find_key<V>(s: Seq<(String, V)>, k: Seq<char>) -> Option<int>
    decreases s.len(),
{
    if s.len() == 0 {
        None
    } else {
        match find_key(s.drop_last(), k) {
            Some(i) => Some(i),
            None => if s.last().0@ == k {
                Some((s.len() - 1) as int)
            } else {
                None
            },
        }
    }
}

/// Where `find_key` finds a name, and that it finds the first.
pub proof fn lemma_find_key<V>(s: Seq<(String, V)>, k: Seq<char>)
    ensures
        find_key(s, k) matches Some(i) ==> 0 <= i < s.len() && s[i].0@ == k && forall|j: int|
            0 <= j < i ==> s[j].0@ != k,
        find_key(s, k) is None ==> forall|j: int| 0 <= j < s.len() ==> s[j].0@ != k,
    decreases s.len(),
{
    if s.len() > 0 {
        lemma_find_key(s.drop_last(), k);
        assert(forall|j: int| 0 <= j < s.len() - 1 ==> s.drop_last()[j] == s[j]);
    }
}

proof fn lemma_find_same_keys<V>(a: Seq<(String, V)>, b: Seq<(String, V)>, x: Seq<char>)
    requires
        a.len() == b.len(),
        forall|j: int| 0 <= j < a.len() ==> a[j].0@ == b[j].0@,
    ensures
        find_key(a, x) == find_key(b, x),
    decreases a.len(),
{
    if a.len() > 0 {
        lemma_find_same_keys(a.drop_last(), b.drop_last(), x);
    }
}

/// Two maps with the same names in the same order hold the same names.
pub proof fn lemma_same_keys_get<V>(a: &NameMap<V>, b: &NameMap<V>, k: Seq<char>)
    requires
        a.entries@.len() == b.entries@.len(),
        forall|i: int| 0 <= i < a.entries@.len() ==> (#[trigger] a.entries@[i]).0 == b.entries@[i].0,
    ensures
        (a.spec_get(k) is Some) == (b.spec_get(k) is Some),
{
    lemma_find_same_keys(a.entries@, b.entries@, k);
}

/// Two entry lists with the same names in the same order find a name at the
/// same index.
pub proof fn lemma_same_key_views<V>(a: Seq<(String, V)>, b: Seq<(String, V)>, k: Seq<char>)
    requires
        a.len() == b.len(),
        forall|j: int| 0 <= j < a.len() ==> (#[trigger] a[j]).0@ == b[j].0@,
    ensures
        find_key(a, k) == find_key(b, k),
{
    lemma_find_same_keys(a, b, k);
}

impl<V> NameMap<V> {
    /// Each name occurs once.
    pub open spec fn wf(&self) -> bool {
        forall|i: int, j: int|
            0 <= i < j < self.entries@.len() ==> #[trigger] self.entries@[i].0@ != #[trigger] self.entries@[j].0@
    }

    /// The value stored under `k`.
    pub open spec fn spec_get(&self, k: Seq<char>) -> Option<V> {
        match find_key(self.entries@, k) {
            Some(i) => Some(self.entries@[i].1),
            None => None,
        }
    }

    /// An empty map.
    pub fn new() -> (r: NameMap<V>)
        ensures
            r.wf(),
            r.entries@.len() == 0,
    {
        NameMap { entries: Vec::new() }
    }

    /// The index of the entry named `k`.
    pub fn index_of(&self, k: &str) -> (r: Option<usize>)
        ensures
            r matches Some(i) ==> find_key(self.entries@, k@) == Some(i as int),
            r is None ==> find_key(self.entries@, k@) is None,
            r matches Some(i) ==> i < self.entries@.len() && self.entries@[i as int].0@ == k@,
    {
        let mut i: usize = 0;
        while i < self.entries.len()
            invariant
                i <= self.entries@.len(),
                forall|j: int| 0 <= j < i ==> self.entries@[j].0@ != k@,
            decreases self.entries@.len() - i,
        {
            if str_eq(self.entries[i].0.as_str(), k) {
                proof {
                    lemma_find_key(self.entries@, k@);
                    if find_key(self.entries@, k@) is Some {
                        let x = find_key(self.entries@, k@)->0;
                        if x < i {
                            assert(self.entries@[x].0@ != k@);
                        }
                        if x > i {
                            assert(self.entries@[i as int].0@ != k@);
                        }
                    }
                }
                return Some(i);
            }
            i = i + 1;
        }
        proof {
            lemma_find_key(self.entries@, k@);
        }
        None
    }

    /// The value stored under `k`.
    pub fn get(&self, k: &str) -> (r: Option<&V>)
        ensures
            match r {
                Some(v) => self.spec_get(k@) == Some(*v),
                None => self.spec_get(k@) is None,
            },
    {
        match self.index_of(k) {
            Some(i) => Some(&self.entries[i].1),
            None => None,
        }
    }

    /// Whether a value is stored under `k`.
    pub fn contains_key(&self, k: &str) -> (r: bool)
        ensures
            r == self.spec_get(k@) is Some,
    {
        self.index_of(k).is_some()
    }

    /// Stores `v` under `k`, replacing (in place) what was stored there.
    pub fn insert(&mut self, k: String, v: V)
        requires
            old(self).wf(),
        ensures
            final(self).wf(),
            final(self).spec_get(k@) == Some(v),
            forall|x: Seq<char>| x != k@ ==> #[trigger] final(self).spec_get(x) == old(self).spec_get(x),
            old(self).spec_get(k@) is Some ==> final(self).entries@.len() == old(self).entries@.len(),
            old(self).spec_get(k@) is None ==> final(self).entries@.len() == old(self).entries@.len() + 1,
            final(self).entries@ == (match find_key(old(self).entries@, k@) {
                Some(i) => old(self).entries@.update(i, (k, v)),
                None => old(self).entries@.push((k, v)),
            }),
    {
        proof {
            lemma_find_key(self.entries@, k@);
        }
        match self.index_of(k.as_str()) {
            Some(i) => {
                let ghost before = self.entries@;
                self.entries.set(i, (k, v));
                proof {
                    assert(self.entries@ == before.update(i as int, (k, v)));
                    assert forall|a: int, b: int| 0 <= a < b < self.entries@.len() implies #[trigger] self.entries@[a].0@ != #[trigger] self.entries@[b].0@ by {
                        assert(before[a].0@ != before[b].0@);
                    }
                    lemma_find_same_keys(self.entries@, before, k@);
                    assert forall|x: Seq<char>| x != k@ implies #[trigger] self.spec_get(x) == old(self).spec_get(x) by {
                        lemma_find_same_keys(self.entries@, before, x);
                        lemma_find_key(before, x);
                    }
                }
            },
            None => {
                let ghost before = self.entries@;
                self.entries.push((k, v));
                proof {
                    assert(self.entries@.drop_last() =~= before);
                    assert forall|a: int, b: int| 0 <= a < b < self.entries@.len() implies #[trigger] self.entries@[a].0@ != #[trigger] self.entries@[b].0@ by {
                        if b < before.len() {
                            assert(before[a].0@ != before[b].0@);
                        } else {
                            assert(self.entries@[a] == before[a]);
                        }
                    }
                    assert forall|x: Seq<char>| x != k@ implies #[trigger] self.spec_get(x) == old(self).spec_get(x) by {
                        assert(self.entries@.drop_last() =~= before);
                        lemma_find_key(before, x);
                    }
                    lemma_find_key(before, k@);
                }
            },
        }
    }

    /// Number of entries.
    pub fn len(&self) -> (r: usize)
        ensures
            r == self.entries@.len(),
    {
        self.entries.len()
    }

    /// Whether the map is empty.
    pub fn is_empty(&self) -> (r: bool)
        ensures
            r == (self.entries@.len() == 0),
    {
        self.entries.len() == 0
    }

    /// The names, in insertion order.
    pub fn keys(&self) -> (r: Vec<String>)
        ensures
            r@.len() == self.entries@.len(),
            forall|i: int| 0 <= i < r@.len() ==> (#[trigger] r@[i])@ == self.entries@[i].0@,
    {
        let mut out: Vec<String> = Vec::new();
        let mut i: usize = 0;
        while i < self.entries.len()
            invariant
                i <= self.entries@.len(),
                out@.len() == i,
                forall|j: int| 0 <= j < i ==> (#[trigger] out@[j])@ == self.entries@[j].0@,
            decreases self.entries@.len() - i,
        {
            out.push(self.entries[i].0.clone());
            i = i + 1;
        }
        out
    }
}

// ---------------------------------------------------------------------------
// Document
// ---------------------------------------------------------------------------

/// Expression kinds: string, regex, variable, number, capture back-references.
#[derive(Debug, Clone)]
pub enum Expression {
    String(String),
    Regex(String),
    Variable(String),
    Number(i64),
    Capture(usize),
    CaptureName(String),
}

/// The mathematical form of an expression.
pub enum ExprV {
    String(Seq<char>),
    Regex(Seq<char>),
    Variable(Seq<char>),
    Number(i64),
    Capture(usize),
    CaptureName(Seq<char>),
}

impl View for Expression {
    type V = ExprV;

    open spec fn view(&self) -> ExprV {
        match self {
            Expression::String(s) => ExprV::String(s@),
            Expression::Regex(s) => ExprV::Regex(s@),
            Expression::Variable(s) => ExprV::Variable(s@),
            Expression::Number(n) => ExprV::Number(*n),
            Expression::Capture(i) => ExprV::Capture(*i),
            Expression::CaptureName(s) => ExprV::CaptureName(s@),
        }
    }
}

impl Expression {
    /// A copy of the expression.
    pub fn copy(&self) -> (r: Expression)
        ensures
            r@ == self@,
    {
        match self {
            Expression::String(s) => Expression::String(s.clone()),
            Expression::Regex(s) => Expression::Regex(s.clone()),
            Expression::Variable(s) => Expression::Variable(s.clone()),
            Expression::Number(n) => Expression::Number(*n),
            Expression::Capture(i) => Expression::Capture(*i),
            Expression::CaptureName(s) => Expression::CaptureName(s.clone()),
        }
    }
}

/// Function call: `function_name(args)`.
#[derive(Debug, Clone)]
pub struct FunctionCall {
    pub name: String,
    pub args: Vec<Expression>,
}

impl View for FunctionCall {
    type V = (Seq<char>, Seq<ExprV>);

    open spec fn view(&self) -> (Seq<char>, Seq<ExprV>) {
        (self.name@, exprs_view(self.args@))
    }
}

impl FunctionCall {
    /// A copy of the call.
    pub fn copy(&self) -> (r: FunctionCall)
        ensures
            r@ == self@,
    {
        let mut args: Vec<Expression> = Vec::new();
        let mut i: usize = 0;
        while i < self.args.len()
            invariant
                i <= self.args@.len(),
                args@.map_values(|e: Expression| e@) =~= self.args@.map_values(|e: Expression| e@).subrange(0, i as int),
            decreases self.args@.len() - i,
        {
            let ghost prev = args@;
            args.push(self.args[i].copy());
            proof {
                assert(args@.map_values(|e: Expression| e@) =~= prev.map_values(|e: Expression| e@).push(self.args@[i as int]@));
                assert(self.args@.map_values(|e: Expression| e@).subrange(0, i + 1) =~= self.args@.map_values(|e: Expression| e@).subrange(0, i as int).push(self.args@[i as int]@));
            }
            i = i + 1;
        }
        proof {
            assert(self.args@.map_values(|e: Expression| e@).subrange(0, i as int) =~= self.args@.map_values(|e: Expression| e@));
        }
        FunctionCall { name: self.name.clone(), args }
    }
}

/// Match field list: a sequence of expressions matched one after the other.
#[derive(Debug)]
pub struct MatchFieldList {
    pub expressions: Vec<Expression>,
    /// Bit 0: case-insensitive.
    pub flags: u32,
    /// The combined regex `(e1)(e2)...` when every expression has a pattern
    /// known before the run.
    pub compiled_regex: Option<CompiledRegex>,
    /// Literal the input must start with, when the first expression is a string.
    pub literal_prefix: Option<String>,
}

/// Match list: alternative field lists separated by `|`.
#[derive(Debug)]
pub struct MatchList {
    pub alternatives: Vec<MatchFieldList>,
}

/// `match pattern: actions` (`imatch` for case-insensitive).
#[derive(Debug)]
pub struct MatchStatement {
    pub match_list: MatchList,
    pub actions: Vec<FunctionCall>,
    pub case_insensitive: bool,
}

/// `when pattern: actions`: runs the actions without consuming input.
#[derive(Debug)]
pub struct WhenStatement {
    pub match_list: MatchList,
    pub actions: Vec<FunctionCall>,
}

/// `skip pattern`.
#[derive(Debug)]
pub struct SkipStatement {
    pub pattern: Expression,
}

/// The statement kinds of a grammar.
#[derive(Debug)]
pub enum Statement {
    Match(MatchStatement),
    When(WhenStatement),
    Skip(SkipStatement),
    Action(FunctionCall),
}

/// Grammar block: `grammar name[(parent)]: statements`.
#[derive(Debug)]
pub struct Grammar {
    pub name: String,
    pub inherit: Option<String>,
    pub statements: Vec<Statement>,
}

/// A parsed Gel document, with the regular expressions it uses once compiled.
#[derive(Debug)]
pub struct GelDocument {
    pub defines: NameMap<Expression>,
    pub grammars: NameMap<Grammar>,
    /// Unique raw regex patterns, in order of registration.
    pub regex_patterns: Vec<String>,
    /// Raw pattern -> its index in `regex_patterns`.
    pub pattern_indices: NameMap<usize>,
    /// Compiled anchored regexes, at `idx * 2 + case_insensitive`.
    pub regex_cache: Vec<Option<CompiledRegex>>,
    /// Fast-path classification of each pattern, parallel to `regex_patterns`.
    pub fast_path_kinds: Vec<FastPathKind>,
}

impl GelDocument {
    /// An empty document.
    pub fn new() -> (r: GelDocument)
        ensures
            r.wf(),
            r.defines.entries@.len() == 0,
            r.grammars.entries@.len() == 0,
            r.regex_patterns@.len() == 0,
            r.pattern_indices.entries@.len() == 0,
    {
        GelDocument {
            defines: NameMap::new(),
            grammars: NameMap::new(),
            regex_patterns: Vec::new(),
            pattern_indices: NameMap::new(),
            regex_cache: Vec::new(),
            fast_path_kinds: Vec::new(),
        }
    }

    /// The maps hold each name once; the pattern tables agree.
    pub open spec fn wf(&self) -> bool {
        &&& self.defines.wf()
        &&& self.grammars.wf()
        &&& self.pattern_indices.wf()
        &&& self.fast_path_kinds@.len() == self.regex_patterns@.len()
        &&& self.regex_cache@.len() == 2 * self.regex_patterns@.len()
        &&& forall|k: Seq<char>|
            #[trigger] self.pattern_indices.spec_get(k) matches Some(i) ==> i < self.regex_patterns@.len()
                && self.regex_patterns@[i as int]@ == k
        &&& forall|i: int|
            0 <= i < self.regex_patterns@.len() ==> (#[trigger] self.regex_cache@[2 * i] matches Some(rx) ==> rx@
                == "^(?:"@ + self.regex_patterns@[i]@ + ")"@)
        &&& forall|i: int|
            0 <= i < self.regex_patterns@.len() ==> (#[trigger] self.regex_cache@[2 * i + 1] matches Some(rx) ==> rx@
                == "(?i)^(?:"@ + self.regex_patterns@[i]@ + ")"@)
    }
}

impl Default for GelDocument {
    fn default() -> (r: GelDocument)
        ensures
            r.wf(),
            r.defines.entries@.len() == 0,
            r.grammars.entries@.len() == 0,
    {
        GelDocument::new()
    }
}

} // verus!

verus! {

/// A call as (name, arguments).
pub type CallV = (Seq<char>, Seq<ExprV>);

/// A match alternative as (expressions, flags).
pub type AltV = (Seq<ExprV>, u32);

/// The mathematical form of a statement.
pub enum StmtV {
    Match(Seq<AltV>, Seq<CallV>, bool),
    When(Seq<AltV>, Seq<CallV>),
    Skip(ExprV),
    Action(CallV),
}

/// The mathematical form of a grammar: name, parent, statements.
pub type GrammarV = (Seq<char>, Option<Seq<char>>, Seq<StmtV>);

/// The expressions of a list, by their views.
pub open spec fn exprs_view(es: Seq<Expression>) -> Seq<ExprV> {
    es.map_values(|e: Expression| e@)
}

/// The calls of a list, by their views.
pub open spec fn calls_view(cs: Seq<FunctionCall>) -> Seq<CallV> {
    cs.map_values(|c: FunctionCall| c@)
}

/// An alternative's view.
pub open spec fn alt_view(a: MatchFieldList) -> AltV {
    (exprs_view(a.expressions@), a.flags)
}

/// The alternatives of a list, by their views.
pub open spec fn alts_view(a: Seq<MatchFieldList>) -> Seq<AltV> {
    a.map_values(|x: MatchFieldList| alt_view(x))
}

/// A statement's view.
pub open spec fn stmt_view(s: Statement) -> StmtV {
    match s {
        Statement::Match(m) => StmtV::Match(alts_view(m.match_list.alternatives@), calls_view(m.actions@), m.case_insensitive),
        Statement::When(w) => StmtV::When(alts_view(w.match_list.alternatives@), calls_view(w.actions@)),
        Statement::Skip(k) => StmtV::Skip(k.pattern@),
        Statement::Action(c) => StmtV::Action(c@),
    }
}

/// The statements of a list, by their views.
pub open spec fn stmts_view(s: Seq<Statement>) -> Seq<StmtV> {
    s.map_values(|x: Statement| stmt_view(x))
}

/// A grammar's view.
pub open spec fn grammar_view(g: Grammar) -> GrammarV {
    (
        g.name@,
        match g.inherit {
            Some(p) => Some(p@),
            None => None,
        },
        stmts_view(g.statements@),
    )
}

/// A document's definitions, by name and view.
pub open spec fn defines_view(d: GelDocument) -> Seq<(Seq<char>, ExprV)> {
    d.defines.entries@.map_values(|p: (String, Expression)| (p.0@, p.1@))
}

/// A document's grammars, by name and view.
pub open spec fn grammars_view(d: GelDocument) -> Seq<(Seq<char>, GrammarV)> {
    d.grammars.entries@.map_values(|p: (String, Grammar)| (p.0@, grammar_view(p.1)))
}

/// The index of the first entry named `k` in a list of named views.
pub open spec fn find_name<X>(s: Seq<(Seq<char>, X)>, k: Seq<char>) -> Option<int>
    decreases s.len(),
{
    if s.len() == 0 {
        None
    } else {
        match find_name(s.drop_last(), k) {
            Some(i) => Some(i),
            None => if s.last().0 == k {
                Some((s.len() - 1) as int)
            } else {
                None
            },
        }
    }
}

/// A named view stored under `k`: replacing the entry of that name, or
/// appended when there is none.
pub open spec fn put_named<X>(s: Seq<(Seq<char>, X)>, k: Seq<char>, x: X) -> Seq<(Seq<char>, X)> {
    match find_name(s, k) {
        Some(i) => s.update(i, (k, x)),
        None => s.push((k, x)),
    }
}

/// `find_key` on entries finds what `find_name` finds on their views.
pub proof fn lemma_find_key_view<V, X>(s: Seq<(String, V)>, f: spec_fn(V) -> X, k: Seq<char>)
    ensures
        find_key(s, k) == find_name(s.map_values(|p: (String, V)| (p.0@, f(p.1))), k),
    decreases s.len(),
{
    let m = s.map_values(|p: (String, V)| (p.0@, f(p.1)));
    if s.len() > 0 {
        lemma_find_key_view(s.drop_last(), f, k);
        assert(s.drop_last().map_values(|p: (String, V)| (p.0@, f(p.1))) =~= m.drop_last());
    }
}

/// Storing an entry in a name-keyed list, seen through the views of its
/// entries, is storing the entry's view under its name.
pub proof fn lemma_store_view<V, X>(s: Seq<(String, V)>, f: spec_fn(V) -> X, k: String, v: V)
    ensures
        (match find_key(s, k@) {
            Some(i) => s.update(i, (k, v)),
            None => s.push((k, v)),
        }).map_values(|p: (String, V)| (p.0@, f(p.1))) == put_named(
            s.map_values(|p: (String, V)| (p.0@, f(p.1))),
            k@,
            f(v),
        ),
{
    lemma_find_key_view(s, f, k@);
    lemma_find_key(s, k@);
    let m = s.map_values(|p: (String, V)| (p.0@, f(p.1)));
    match find_key(s, k@) {
        Some(i) => {
            assert(s.update(i, (k, v)).map_values(|p: (String, V)| (p.0@, f(p.1))) =~= m.update(i, (k@, f(v))));
        },
        None => {
            assert(s.push((k, v)).map_values(|p: (String, V)| (p.0@, f(p.1))) =~= m.push((k@, f(v))));
        },
    }
}

} // verus!
