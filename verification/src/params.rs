//! The parameters of the scanners and of the trainer: five sets of characters
//! and the trainer's switches and count limits, with the standard choice.

use vstd::prelude::*;

verus! {

/// The characters that can end a sentence.
pub trait DefinesSentenceEndings {
    /// The set of characters that end a sentence.
    spec fn sentence_endings() -> Set<char>;

    /// Whether `c` can end a sentence.
    fn is_sentence_ending(c: &char) -> (b: bool)
        ensures
            b == Self::sentence_endings().contains(*c),
    ;
}

/// The punctuation that can occur within a word.
pub trait DefinesInternalPunctuation {
    /// The set of punctuation characters that can occur within a word.
    spec fn internal_punctuation() -> Set<char>;

    /// Whether `c` is punctuation that can occur within a word.
    fn is_internal_punctuation(c: &char) -> (b: bool)
        ensures
            b == Self::internal_punctuation().contains(*c),
    ;
}

/// The characters that cannot occur inside of a word.
pub trait DefinesNonWordCharacters {
    /// The set of characters that cannot occur inside of a word.
    spec fn nonword_chars() -> Set<char>;

    /// Whether `c` cannot occur inside of a word.
    fn is_nonword_char(c: &char) -> (b: bool)
        ensures
            b == Self::nonword_chars().contains(*c),
    ;
}

/// The punctuation that can occur within a sentence.
pub trait DefinesPunctuation {
    /// The set of punctuation marks.
    spec fn punctuation() -> Set<char>;

    /// Whether `c` is a punctuation mark.
    fn is_punctuation(c: &char) -> (b: bool)
        ensures
            b == Self::punctuation().contains(*c),
    ;
}

/// The characters that cannot start a word.
pub trait DefinesNonPrefixCharacters {
    /// The set of characters that cannot start a word.
    spec fn nonprefix_chars() -> Set<char>;

    /// Whether `c` cannot start a word.
    fn is_nonprefix_char(c: &char) -> (b: bool)
        ensures
            b == Self::nonprefix_chars().contains(*c),
    ;
}

/// The trainer's switches and count limits.
///
/// The three score thresholds of the trainer are not here: the scores are
/// computed and compared by the caller, who hands the verdicts in.
pub trait TrainerParameters: DefinesSentenceEndings + DefinesInternalPunctuation {
    /// The number of occurrences from which on a type is too frequent to be
    /// taken for a rare abbreviation.
    spec fn spec_abbrev_upper_bound() -> usize;

    /// Whether the scores of abbreviations drop the penalty for occurrences
    /// without a period.
    spec fn spec_ignore_abbrev_penalty() -> bool;

    /// Whether every pair whose first token ends with a period is a candidate
    /// collocation.
    spec fn spec_include_all_collocations() -> bool;

    /// Whether every pair whose first token is an abbreviation is a candidate
    /// collocation.
    spec fn spec_include_abbrev_collocations() -> bool;

    /// The number of occurrences that a pair must exceed to be kept as a
    /// collocation.
    spec fn spec_collocation_frequency_lower_bound() -> usize;

    /// See [`TrainerParameters::spec_abbrev_upper_bound`].
    fn abbrev_upper_bound() -> (n: usize)
        ensures
            n == Self::spec_abbrev_upper_bound(),
    ;

    /// See [`TrainerParameters::spec_ignore_abbrev_penalty`].
    fn ignore_abbrev_penalty() -> (b: bool)
        ensures
            b == Self::spec_ignore_abbrev_penalty(),
    ;

    /// See [`TrainerParameters::spec_include_all_collocations`].
    fn include_all_collocations() -> (b: bool)
        ensures
            b == Self::spec_include_all_collocations(),
    ;

    /// See [`TrainerParameters::spec_include_abbrev_collocations`].
    fn include_abbrev_collocations() -> (b: bool)
        ensures
            b == Self::spec_include_abbrev_collocations(),
    ;

    /// See [`TrainerParameters::spec_collocation_frequency_lower_bound`].
    fn collocation_frequency_lower_bound() -> (n: usize)
        ensures
            n == Self::spec_collocation_frequency_lower_bound(),
    ;
}

/// The standard parameters of all scanners and of the trainer.
pub struct Standard;

impl DefinesSentenceEndings for Standard {
    open spec fn sentence_endings() -> Set<char> {
        set!['.', '?', '!']
    }

    fn is_sentence_ending(c: &char) -> (b: bool) {
        let c = *c;
        c == '.' || c == '?' || c == '!'
    }
}

impl DefinesInternalPunctuation for Standard {
    open spec fn internal_punctuation() -> Set<char> {
        set![',', ':', ';', '\u{2014}']
    }

    fn is_internal_punctuation(c: &char) -> (b: bool) {
        let c = *c;
        c == ',' || c == ':' || c == ';' || c == '\u{2014}'
    }
}

impl DefinesNonWordCharacters for Standard {
    open spec fn nonword_chars() -> Set<char> {
        set!['?', '!', ')', '"', ';', '}', ']', '*', ':', '@', '\'', '(', '{', '[']
    }

    fn is_nonword_char(c: &char) -> (b: bool) {
        let c = *c;
        c == '?' || c == '!' || c == ')' || c == '"' || c == ';' || c == '}' || c == ']' || c
            == '*' || c == ':' || c == '@' || c == '\'' || c == '(' || c == '{' || c == '['
    }
}

impl DefinesPunctuation for Standard {
    open spec fn punctuation() -> Set<char> {
        set![';', ':', ',', '.', '!', '?']
    }

    fn is_punctuation(c: &char) -> (b: bool) {
        let c = *c;
        c == ';' || c == ':' || c == ',' || c == '.' || c == '!' || c == '?'
    }
}

impl DefinesNonPrefixCharacters for Standard {
    open spec fn nonprefix_chars() -> Set<char> {
        set!['(', '"', '`', '{', '[', ':', ';', '&', '#', '*', '@', ')', '}', ']', '-', ',']
    }

    fn is_nonprefix_char(c: &char) -> (b: bool) {
        let c = *c;
        c == '(' || c == '"' || c == '`' || c == '{' || c == '[' || c == ':' || c == ';' || c
            == '&' || c == '#' || c == '*' || c == '@' || c == ')' || c == '}' || c == ']' || c
            == '-' || c == ','
    }
}

impl TrainerParameters for Standard {
    open spec fn spec_abbrev_upper_bound() -> usize {
        5
    }

    open spec fn spec_ignore_abbrev_penalty() -> bool {
        false
    }

    open spec fn spec_include_all_collocations() -> bool {
        false
    }

    open spec fn spec_include_abbrev_collocations() -> bool {
        false
    }

    open spec fn spec_collocation_frequency_lower_bound() -> usize {
        1
    }

    fn abbrev_upper_bound() -> (n: usize) {
        5
    }

    fn ignore_abbrev_penalty() -> (b: bool) {
        false
    }

    fn include_all_collocations() -> (b: bool) {
        false
    }

    fn include_abbrev_collocations() -> (b: bool) {
        false
    }

    fn collocation_frequency_lower_bound() -> (n: usize) {
        1
    }
}

} // verus!
