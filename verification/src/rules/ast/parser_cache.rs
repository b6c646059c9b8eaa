//! Parsers for the supported languages, made when first asked for.
//!
//! The cache keeps one parser for each language that was asked for and hands
//! out a parser of its own to every caller.

use vstd::prelude::*;
use vstd::string::*;
use crate::types::Language;

verus! {

/// Why no parser could be had.
#[derive(Debug, Clone, Copy, PartialEq, Eq, Structural)]
pub enum ParserError {
    /// The language is not among those that parsers are built for.
    UnsupportedLanguage(Language),
    /// The grammar of the language was refused by the parser.
    InitializationFailed(Language),
    /// The lock that guards a shared cache was poisoned.
    LockPoisoned,
}

/// The name of `language`.
pub open spec fn language_name(language: Language) -> Seq<char> {
    match language {
        Language::Rust => "Rust"@,
        Language::TypeScript => "TypeScript"@,
        Language::JavaScript => "JavaScript"@,
        Language::Python => "Python"@,
        Language::Go => "Go"@,
    }
}

/// The name of `language`.
pub fn name_of(language: Language) -> (r: &'static str)
    ensures
        r@ == language_name(language),
{
    match language {
        Language::Rust => "Rust",
        Language::TypeScript => "TypeScript",
        Language::JavaScript => "JavaScript",
        Language::Python => "Python",
        Language::Go => "Go",
    }
}

impl ParserError {
    /// What the error says, as a text.
    pub open spec fn text(&self) -> Seq<char> {
        match self {
            ParserError::UnsupportedLanguage(language) => "Language "@ + language_name(*language)
                + " is not supported or not enabled via feature flags"@,
            ParserError::InitializationFailed(language) => "Failed to initialize parser for "@
                + language_name(*language),
            ParserError::LockPoisoned => "Internal cache lock error"@,
        }
    }

    /// What the error says.
    pub fn message(&self) -> (r: String)
        ensures
            r@ == self.text(),
    {
        match self {
            ParserError::UnsupportedLanguage(language) => {
                let mut out = String::from_str("Language ");
                out.append(name_of(*language));
                out.append(" is not supported or not enabled via feature flags");
                out
            },
            ParserError::InitializationFailed(language) => {
                let mut out = String::from_str("Failed to initialize parser for ");
                out.append(name_of(*language));
                out
            },
            ParserError::LockPoisoned => String::from_str("Internal cache lock error"),
        }
    }
}

#[verifier::external_type_specification]
#[verifier::external_body]
pub struct ExParser(tree_sitter::Parser);

/// The language whose grammar `parser` holds, as
/// `tree_sitter::Parser::set_language` gave it to the parser; `None` where the
/// parser holds no grammar of the five languages.
pub uninterp spec fn parser_language(parser: tree_sitter::Parser) -> Option<Language>;

/// `tree_sitter::Parser::new` makes a parser without a grammar. Nothing is
/// claimed of it.
pub assume_specification[ tree_sitter::Parser::new ]() -> (r: tree_sitter::Parser);

/// Gives `parser` the grammar of Rust, from `tree_sitter_rust::language`, with
/// `tree_sitter::Parser::set_language`, and says whether the parser took it.
///
/// Trusted: the parser takes the grammar and then holds it. It takes a
/// grammar whose version lies within the two bounds that the parser reads, and
/// the grammar that is built in is of the upper bound's version.
#[verifier::external_body]
fn set_rust_grammar(parser: &mut tree_sitter::Parser) -> (taken: bool)
    ensures
        taken,
        parser_language(*final(parser)) == Some(Language::Rust),
{
    parser.set_language(&tree_sitter_rust::language()).is_ok()
}

/// Gives `parser` the grammar of TypeScript, from
/// `tree_sitter_typescript::language_typescript`, with
/// `tree_sitter::Parser::set_language`, and says whether the parser took it.
///
/// Trusted: the parser takes the grammar and then holds it. It takes a
/// grammar whose version lies within the two bounds that the parser reads, and
/// the grammar that is built in is of the upper bound's version.
#[verifier::external_body]
fn set_typescript_grammar(parser: &mut tree_sitter::Parser) -> (taken: bool)
    ensures
        taken,
        parser_language(*final(parser)) == Some(Language::TypeScript),
{
    parser.set_language(&tree_sitter_typescript::language_typescript()).is_ok()
}

/// Gives `parser` the grammar of JavaScript, from
/// `tree_sitter_javascript::language`, with
/// `tree_sitter::Parser::set_language`, and says whether the parser took it.
///
/// Trusted: the parser takes the grammar and then holds it. It takes a
/// grammar whose version lies within the two bounds that the parser reads, and
/// the grammar that is built in is of the upper bound's version.
#[verifier::external_body]
fn set_javascript_grammar(parser: &mut tree_sitter::Parser) -> (taken: bool)
    ensures
        taken,
        parser_language(*final(parser)) == Some(Language::JavaScript),
{
    parser.set_language(&tree_sitter_javascript::language()).is_ok()
}

/// Gives `parser` the grammar of Python, from `tree_sitter_python::language`,
/// with `tree_sitter::Parser::set_language`, and says whether the parser took
/// it.
///
/// Trusted: the parser takes the grammar and then holds it. It takes a
/// grammar whose version lies within the two bounds that the parser reads, and
/// the grammar that is built in is of the upper bound's version.
#[verifier::external_body]
fn set_python_grammar(parser: &mut tree_sitter::Parser) -> (taken: bool)
    ensures
        taken,
        parser_language(*final(parser)) == Some(Language::Python),
{
    parser.set_language(&tree_sitter_python::language()).is_ok()
}

/// Gives `parser` the grammar of Go, from `tree_sitter_go::language`, with
/// `tree_sitter::Parser::set_language`, and says whether the parser took it.
///
/// Trusted: the parser takes the grammar and then holds it. It takes a
/// grammar whose version lies within the two bounds that the parser reads, and
/// the grammar that is built in is of the upper bound's version.
#[verifier::external_body]
fn set_go_grammar(parser: &mut tree_sitter::Parser) -> (taken: bool)
    ensures
        taken,
        parser_language(*final(parser)) == Some(Language::Go),
{
    parser.set_language(&tree_sitter_go::language()).is_ok()
}

/// What becomes of a parser that was offered the grammar of `language`: the
/// parser itself where it took the grammar, and else the failure to initialize
/// a parser for that language.
pub fn parser_outcome(language: Language, parser: tree_sitter::Parser, taken: bool) -> (r: Result<
    tree_sitter::Parser,
    ParserError,
>)
    ensures
        match r {
            Ok(made) => taken && made == parser,
            Err(error) => !taken && error == ParserError::InitializationFailed(language),
        },
{
    if taken {
        Ok(parser)
    } else {
        Err(ParserError::InitializationFailed(language))
    }
}

/// A new parser for `language`: one that holds the grammar of that language.
/// The grammar of every language is built in, so there always is one.
pub fn create_parser_for_language(language: Language) -> (r: Result<
    tree_sitter::Parser,
    ParserError,
>)
    ensures
        r matches Ok(made) && parser_language(made) == Some(language),
{
    let mut parser = tree_sitter::Parser::new();
    let taken = match language {
        Language::Rust => set_rust_grammar(&mut parser),
        Language::TypeScript => set_typescript_grammar(&mut parser),
        Language::JavaScript => set_javascript_grammar(&mut parser),
        Language::Python => set_python_grammar(&mut parser),
        Language::Go => set_go_grammar(&mut parser),
    };
    parser_outcome(language, parser, taken)
}

/// A parser that the cache keeps, with its language.
pub struct CachedParser {
    language: Language,
    parser: tree_sitter::Parser,
}

/// The parsers made so far, one for each language that was asked for.
pub struct ParserCache {
    parsers: Vec<CachedParser>,
}

/// Whether every parser of `kept` holds the grammar of the language that it is
/// kept for, and no language has two parsers.
pub open spec fn well_kept(kept: Seq<(Language, tree_sitter::Parser)>) -> bool {
    &&& forall|i: int|
        0 <= i < kept.len() ==> parser_language((#[trigger] kept[i]).1) == Some(kept[i].0)
    &&& forall|i: int, j: int|
        0 <= i < j < kept.len() ==> (#[trigger] kept[i]).0 != (#[trigger] kept[j]).0
}

impl ParserCache {
    #[verifier::type_invariant]
    spec fn well_formed(&self) -> bool {
        well_kept(self.kept())
    }

    /// The parsers that the cache keeps, each with its language, in the order
    /// in which they were made.
    pub closed spec fn kept(&self) -> Seq<(Language, tree_sitter::Parser)> {
        Seq::new(
            self.parsers@.len(),
            |i: int| (self.parsers@[i].language, self.parsers@[i].parser),
        )
    }

    /// The languages for which the cache keeps a parser.
    pub open spec fn cached(&self) -> Set<Language> {
        Set::new(
            |language: Language|
                exists|i: int|
                    0 <= i < self.kept().len() && (#[trigger] self.kept()[i]).0 == language,
        )
    }

    /// The cache that keeps no parser.
    pub fn new() -> (r: Self)
        ensures
            r.kept() == Seq::<(Language, tree_sitter::Parser)>::empty(),
            r.cached() == Set::<Language>::empty(),
    {
        let r = ParserCache { parsers: Vec::new() };
        assert(r.kept() =~= Seq::<(Language, tree_sitter::Parser)>::empty());
        assert(r.cached() =~= Set::<Language>::empty());
        r
    }

    /// Whether the cache keeps a parser for `language`.
    pub fn contains(&self, language: Language) -> (r: bool)
        ensures
            r == self.cached().contains(language),
    {
        let mut i: usize = 0;
        while i < self.parsers.len()
            invariant
                i <= self.parsers.len(),
                forall|j: int| 0 <= j < i ==> (#[trigger] self.kept()[j]).0 != language,
            decreases self.parsers.len() - i,
        {
            if self.parsers[i].language == language {
                assert(self.kept()[i as int].0 == language);
                return true;
            }
            assert(self.kept()[i as int].0 != language);
            i += 1;
        }
        false
    }

    /// A parser for `language`, for the caller to keep: one that holds the
    /// grammar of that language.
    ///
    /// Where the cache keeps no parser for the language yet, one is made and
    /// kept first. The cache loses no parser, and gains none but that one.
    /// Every parser that it keeps holds the grammar of its language.
    pub fn get_parser(&mut self, language: Language) -> (r: Result<
        tree_sitter::Parser,
        ParserError,
    >)
        ensures
            r matches Ok(made) && parser_language(made) == Some(language),
            final(self).cached() == old(self).cached().insert(language),
            old(self).cached().contains(language) ==> final(self).kept() == old(self).kept(),
            !old(self).cached().contains(language) ==> {
                &&& final(self).kept().len() == old(self).kept().len() + 1
                &&& final(self).kept().drop_last() == old(self).kept()
                &&& final(self).kept().last().0 == language
            },
            well_kept(final(self).kept()),
    {
        proof {
            use_type_invariant(&*self);
        }
        if !self.contains(language) {
            let parser = match create_parser_for_language(language) {
                Ok(parser) => parser,
                Err(error) => {
                    return Err(error);
                },
            };
            let ghost before = self.kept();
            let mut parsers: Vec<CachedParser> = Vec::new();
            core::mem::swap(&mut self.parsers, &mut parsers);
            parsers.push(CachedParser { language, parser });
            proof {
                let after = Seq::new(
                    parsers@.len(),
                    |i: int| (parsers@[i].language, parsers@[i].parser),
                );
                assert(after =~= before.push((language, parser)));
                assert forall|i: int, j: int| 0 <= i < j < after.len() implies (
                #[trigger] after[i]).0 != (#[trigger] after[j]).0 by {
                    if j == before.len() {
                        assert(before[i].0 == after[i].0);
                    } else {
                        assert(before[i] == after[i] && before[j] == after[j]);
                    }
                }
                assert forall|i: int| 0 <= i < after.len() implies parser_language(
                    (#[trigger] after[i]).1,
                ) == Some(after[i].0) by {
                    if i < before.len() {
                        assert(before[i] == after[i]);
                    }
                }
            }
            core::mem::swap(&mut self.parsers, &mut parsers);
            proof {
                let after = self.kept();
                assert(after =~= before.push((language, parser)));
                assert(after.drop_last() =~= before);
                assert forall|other: Language|
                    self.cached().contains(other) <==> old(self).cached().insert(
                        language,
                    ).contains(other) by {
                    if self.cached().contains(other) {
                        let i = choose|i: int|
                            0 <= i < after.len() && (#[trigger] after[i]).0 == other;
                        if i < before.len() {
                            assert(before[i].0 == other);
                        }
                    }
                    if old(self).cached().contains(other) {
                        let i = choose|i: int|
                            0 <= i < before.len() && (#[trigger] before[i]).0 == other;
                        assert(after[i].0 == other);
                    }
                    if other == language {
                        assert(after[before.len() as int].0 == other);
                    }
                }
                assert(self.cached() =~= old(self).cached().insert(language));
            }
        } else {
            assert(old(self).cached().insert(language) =~= old(self).cached());
        }
        create_parser_for_language(language)
    }
}

impl Default for ParserCache {
    fn default() -> (r: Self)
        ensures
            r.kept() == Seq::<(Language, tree_sitter::Parser)>::empty(),
            r.cached() == Set::<Language>::empty(),
    {
        ParserCache::new()
    }
}

} // verus!
