//! Pattern matching for zone rules. A pattern with `*` is a glob
//! (`*.ru` matches any name ending in `.ru`); one without is a legacy
//! substring match. Both are translated to anchored regular expressions and
//! evaluated by the regex engine, which the library calls through a narrow
//! trusted boundary.

use vstd::prelude::*;
use vstd::string::StrSliceExecFns;
use vstd::string::StringExecFns;

verus! {

/// The meta characters that `regex::escape` prefixes with a backslash.
pub open spec fn spec_regex_meta(c: char) -> bool {
    c == '\\' || c == '.' || c == '+' || c == '*' || c == '?' || c == '(' || c == ')' || c == '|'
        || c == '[' || c == ']' || c == '{' || c == '}' || c == '^' || c == '$' || c == '#'
        || c == '&' || c == '-' || c == '~'
}

/// What `regex::escape` returns for a pattern fragment: the text with a
/// backslash before each meta character.
pub open spec fn regex_escaped(s: Seq<char>) -> Seq<char>
    decreases s.len(),
{
    if s.len() == 0 {
        Seq::<char>::empty()
    } else {
        regex_escaped(s.drop_last()) + (if spec_regex_meta(s.last()) {
            seq!['\\', s.last()]
        } else {
            seq![s.last()]
        })
    }
}

/// Whether `regex::Regex::new` accepts a pattern.
pub uninterp spec fn regex_compiles(s: Seq<char>) -> bool;

/// What `regex::Regex::is_match` answers for a pattern and a text.
pub uninterp spec fn regex_match(pattern: Seq<char>, text: Seq<char>) -> bool;

/// Relies on regex::escape: a backslash before each meta character of a
/// fixed set, one character at a time.
#[verifier::external_body]
fn regex_escape(s: &str) -> (r: String)
    ensures
        r@ == regex_escaped(s@),
{
    regex::escape(s)
}

/// A compiled pattern paired with the source text it was compiled from.
/// The only constructor is [`compile_regex`], so the engine state always
/// belongs to `source`.
pub struct CompiledPattern {
    source: String,
    regex: regex::Regex,
}

#[verifier::external_type_specification]
#[verifier::external_body]
pub struct ExRegex(regex::Regex);

/// Relies on regex::Regex::new: compilation succeeds or fails on the
/// pattern text alone, and the returned engine is the one compiled from it.
#[verifier::external_body]
fn compile_regex(source: String) -> (r: Option<CompiledPattern>)
    ensures
        r is Some <==> regex_compiles(source@),
        r is Some ==> r.unwrap().source@ == source@,
{
    match regex::Regex::new(source.as_str()) {
        Ok(regex) => Some(CompiledPattern { source, regex }),
        Err(_) => None,
    }
}

/// Relies on regex::Regex::is_match: the answer depends only on the
/// compiled pattern and the text. The engine in a [`CompiledPattern`] was
/// compiled from its `source` field, so the answer is a function of that
/// source and the text.
#[verifier::external_body]
fn regex_run(p: &CompiledPattern, text: &str) -> (r: bool)
    ensures
        r == regex_match(p.source@, text@),
{
    p.regex.is_match(text)
}

/// Relies on regex::Regex::new, to check a pattern without keeping the
/// engine: acceptance depends on the pattern text alone.
#[verifier::external_body]
pub fn regex_syntax_ok(pattern: &str) -> (r: bool)
    ensures
        r == regex_compiles(pattern@),
{
    regex::Regex::new(pattern).is_ok()
}

impl CompiledPattern {
    /// The pattern text this engine was compiled from.
    pub closed spec fn src(self) -> Seq<char> {
        self.source@
    }

    /// Evaluate the pattern against a text.
    pub fn matches(&self, text: &str) -> (r: bool)
        ensures
            r == regex_match(self.src(), text@),
    {
        regex_run(self, text)
    }
}

/// The fragments of a pattern between `*` wildcards, split from the front.
pub open spec fn spec_split_star(s: Seq<char>) -> Seq<Seq<char>>
    decreases s.len(),
{
    if s.len() == 0 {
        seq![Seq::<char>::empty()]
    } else {
        let prev = spec_split_star(s.drop_last());
        if s.last() == '*' {
            prev + seq![Seq::<char>::empty()]
        } else {
            prev.drop_last().push(prev.last().push(s.last()))
        }
    }
}

/// The regex text for a glob pattern: escaped fragments joined by `.*`,
/// anchored at both ends.
pub open spec fn spec_glob_body(parts: Seq<Seq<char>>) -> Seq<char>
    recommends
        parts.len() > 0,
    decreases parts.len(),
{
    if parts.len() <= 1 {
        regex_escaped(parts[0])
    } else {
        spec_glob_body(parts.drop_last()) + ".*"@ + regex_escaped(parts.last())
    }
}

/// The regex a zone pattern is translated to: a glob when it holds `*`,
/// a substring match otherwise.
pub open spec fn spec_pattern_regex(p: Seq<char>) -> Seq<char> {
    if p.contains('*') {
        "^"@ + spec_glob_body(spec_split_star(p)) + "$"@
    } else {
        ".*"@ + regex_escaped(p) + ".*"@
    }
}

/// A zone pattern matches a text.
pub open spec fn spec_pattern_matches(p: Seq<char>, text: Seq<char>) -> bool {
    regex_match(spec_pattern_regex(p), text)
}

/// Split a pattern on `*`.
fn split_star(s: &str) -> (r: Vec<String>)
    ensures
        r@.map_values(|p: String| p@) == spec_split_star(s@),
        r@.len() > 0,
{
    let n = s.unicode_len();
    let mut parts: Vec<String> = Vec::new();
    let mut seg_start: usize = 0;
    let mut i: usize = 0;
    proof {
        assert(parts@.map_values(|p: String| p@) =~= spec_split_star(s@.subrange(0, 0)).drop_last());
        assert(s@.subrange(0, 0) =~= spec_split_star(s@.subrange(0, 0)).last());
    }
    while i < n
        invariant
            n == s@.len(),
            seg_start <= i <= n,
            parts@.map_values(|p: String| p@) == spec_split_star(s@.subrange(0, i as int)).drop_last(),
            s@.subrange(seg_start as int, i as int) == spec_split_star(s@.subrange(0, i as int)).last(),
            spec_split_star(s@.subrange(0, i as int)).len() > 0,
        decreases n - i,
    {
        let ghost prefix = s@.subrange(0, i as int);
        let ghost prev_parts = parts@.map_values(|p: String| p@);
        let c = s.get_char(i);
        proof {
            let next = s@.subrange(0, i + 1);
            assert(next.drop_last() =~= prefix);
            assert(next.last() == c);
        }
        if c == '*' {
            let seg = s.substring_char(seg_start, i).to_owned();
            parts.push(seg);
            proof {
                let next = s@.subrange(0, i + 1);
                let sp = spec_split_star(prefix);
                assert(spec_split_star(next) =~= sp + seq![Seq::<char>::empty()]);
                assert(parts@.map_values(|p: String| p@) =~= prev_parts.push(sp.last()));
                assert(prev_parts.push(sp.last()) =~= sp.drop_last().push(sp.last()));
                assert(sp.drop_last().push(sp.last()) =~= sp);
                assert(spec_split_star(next).drop_last() =~= sp);
                assert(s@.subrange(i + 1, i + 1) =~= Seq::<char>::empty());
            }
            seg_start = i + 1;
        } else {
            proof {
                let next = s@.subrange(0, i + 1);
                let sp = spec_split_star(prefix);
                assert(spec_split_star(next) =~= sp.drop_last().push(sp.last().push(c)));
                assert(spec_split_star(next).drop_last() =~= sp.drop_last());
                assert(s@.subrange(seg_start as int, i + 1) =~= s@.subrange(
                    seg_start as int,
                    i as int,
                ).push(c));
            }
        }
        i += 1;
    }
    let seg = s.substring_char(seg_start, n).to_owned();
    parts.push(seg);
    proof {
        assert(s@.subrange(0, n as int) =~= s@);
        let sp = spec_split_star(s@);
        assert(parts@.map_values(|p: String| p@) =~= sp.drop_last().push(sp.last()));
        assert(sp.drop_last().push(sp.last()) =~= sp);
    }
    parts
}

/// Whether a string holds a `*` wildcard.
fn contains_star(s: &str) -> (r: bool)
    ensures
        r == s@.contains('*'),
{
    let n = s.unicode_len();
    let mut i: usize = 0;
    while i < n
        invariant
            n == s@.len(),
            i <= n,
            forall|j: int| 0 <= j < i ==> s@[j] != '*',
        decreases n - i,
    {
        if s.get_char(i) == '*' {
            proof {
                assert(s@[i as int] == '*');
            }
            return true;
        }
        i += 1;
    }
    proof {
        if s@.contains('*') {
            let j = choose|j: int| 0 <= j < s@.len() && s@[j] == '*';
        }
    }
    false
}

/// Translate a zone pattern into its regex text.
pub fn pattern_regex_source(p: &str) -> (r: String)
    ensures
        r@ == spec_pattern_regex(p@),
{
    if contains_star(p) {
        let parts = split_star(p);
        let ghost partsv = parts@.map_values(|q: String| q@);
        let mut body = regex_escape(parts[0].as_str());
        let k = parts.len();
        let mut i: usize = 1;
        proof {
            assert(partsv.subrange(0, 1).drop_last() =~= Seq::<Seq<char>>::empty());
            assert(partsv.subrange(0, 1)[0] == partsv[0]);
            assert(body@ == spec_glob_body(partsv.subrange(0, 1)));
        }
        while i < k
            invariant
                k == parts@.len(),
                partsv == parts@.map_values(|q: String| q@),
                1 <= i <= k,
                body@ == spec_glob_body(partsv.subrange(0, i as int)),
            decreases k - i,
        {
            body.append(".*");
            let esc = regex_escape(parts[i].as_str());
            body.append(esc.as_str());
            proof {
                let next = partsv.subrange(0, i + 1);
                assert(next.drop_last() =~= partsv.subrange(0, i as int));
                assert(next.last() == partsv[i as int]);
            }
            i += 1;
        }
        proof {
            assert(partsv.subrange(0, k as int) =~= partsv);
        }
        let mut out = "^".to_owned();
        out.append(body.as_str());
        out.append("$");
        out
    } else {
        let mut out = ".*".to_owned();
        let esc = regex_escape(p);
        out.append(esc.as_str());
        out.append(".*");
        out
    }
}

/// Compile a zone pattern; fails exactly when the translated regex is
/// rejected by the engine.
pub fn compile_pattern(p: &str) -> (r: Option<CompiledPattern>)
    ensures
        r is Some <==> regex_compiles(spec_pattern_regex(p@)),
        r is Some ==> r.unwrap().src() == spec_pattern_regex(p@),
{
    let source = pattern_regex_source(p);
    compile_regex(source)
}

} // verus!
