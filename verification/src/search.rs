//! Search terms.
//!
//! The builder gathers the searchable terms of a document's text: the text
//! is split at whitespace, angle brackets and ASCII punctuation, and each
//! remaining run of characters is lowercased and recorded once per
//! occurrence. Turning the gathered occurrences into relative term
//! frequencies (and serialising them) involves floating point and is the
//! embedding binary's work.

use vstd::prelude::*;

use crate::utils::{is_whitespace_char, str_chars, chars_to_string};

verus! {

/// A term boundary: whitespace, the two angle brackets, or ASCII
/// punctuation.
pub open spec fn is_term_separator(c: char) -> bool {
    ||| c == '>'
    ||| c == '<'
    ||| is_whitespace_char(c)
    ||| is_ascii_punctuation(c)
}

/// The four ASCII punctuation ranges.
pub open spec fn is_ascii_punctuation(c: char) -> bool {
    ||| ('!' <= c && c <= '/')
    ||| (':' <= c && c <= '@')
    ||| ('[' <= c && c <= '`')
    ||| ('{' <= c && c <= '~')
}

/// Exec mirror of [`is_term_separator`].
fn term_separator(c: char) -> (r: bool)
    ensures
        r == is_term_separator(c),
{
    c == '>' || c == '<' || crate::utils::char_is_whitespace(c) || ('!' <= c && c <= '/') || (':'
        <= c && c <= '@') || ('[' <= c && c <= '`') || ('{' <= c && c <= '~')
}

/// The maximal separator-free runs of `s`, scanning from `i` with the
/// current run starting at `start`.
pub open spec fn scan_terms(s: Seq<char>, i: int, start: int) -> Seq<Seq<char>>
    decreases s.len() - i,
{
    if i < 0 || i >= s.len() || start < 0 || start > i {
        if 0 <= start <= i <= s.len() && start < i {
            seq![s.subrange(start, i)]
        } else {
            Seq::empty()
        }
    } else if is_term_separator(s[i]) {
        let here = if start < i {
            seq![s.subrange(start, i)]
        } else {
            Seq::<Seq<char>>::empty()
        };
        here + scan_terms(s, i + 1, i + 1)
    } else {
        scan_terms(s, i + 1, start)
    }
}

/// The terms of a text: its maximal runs of non-separator characters.
pub open spec fn terms_of(s: Seq<char>) -> Seq<Seq<char>> {
    scan_terms(s, 0, 0)
}

/// What `str::to_lowercase` returns: the Unicode lowercasing of a string, a
/// function of its characters alone.
pub uninterp spec fn lower_of(s: Seq<char>) -> Seq<char>;

/// Relies on `str::to_lowercase`: Unicode lowercasing, a pure function of
/// the string's characters.
#[verifier::external_body]
fn str_lower(s: &str) -> (r: String)
    ensures
        r@ == lower_of(s@),
{
    s.to_lowercase()
}

/// The lowered terms of a text, in order.
pub open spec fn lowered_terms_of(s: Seq<char>) -> Seq<Seq<char>> {
    terms_of(s).map_values(|t: Seq<char>| lower_of(t))
}

/// The models of the gathered occurrences.
pub open spec fn occurrences_view(s: Seq<String>) -> Seq<Seq<char>> {
    s.map_values(|t: String| t@)
}

/// Builder for search indices: gathers the lowered term occurrences of the
/// text it is fed, in order.
pub struct TermFrequenciesBuilder {
    terms: Vec<String>,
}

impl View for TermFrequenciesBuilder {
    type V = Seq<Seq<char>>;

    closed spec fn view(&self) -> Seq<Seq<char>> {
        occurrences_view(self.terms@)
    }
}

impl TermFrequenciesBuilder {
    /// An empty builder.
    pub fn new() -> (r: TermFrequenciesBuilder)
        ensures
            r@ == Seq::<Seq<char>>::empty(),
    {
        let r = TermFrequenciesBuilder { terms: Vec::new() };
        proof {
            assert(r@ =~= Seq::<Seq<char>>::empty());
        }
        r
    }

    /// Record every term of `text`, lowercased, in order.
    pub fn add_terms(&mut self, text: &str)
        ensures
            final(self)@ == old(self)@ + lowered_terms_of(text@),
    {
        let cs = str_chars(text);
        let n = cs.len();
        let ghost s = text@;
        let mut i: usize = 0;
        let mut start: usize = 0;
        proof {
            assert(old(self)@ + lowered_terms_of(s) == old(self)@ + scan_terms(
                s,
                0,
                0,
            ).map_values(|t: Seq<char>| lower_of(t)));
        }
        while i < n
            invariant
                start <= i <= n,
                n == cs.len(),
                cs@ == s,
                old(self)@ + lowered_terms_of(s) == self@ + scan_terms(
                    s,
                    i as int,
                    start as int,
                ).map_values(|t: Seq<char>| lower_of(t)),
            decreases n - i,
        {
            if term_separator(cs[i]) {
                if start < i {
                    let run = crate::utils::copy_range(&cs, start, i);
                    let term = chars_to_string(&run);
                    let low = str_lower(term.as_str());
                    let ghost prev = self@;
                    self.terms.push(low);
                    proof {
                        assert(self@ =~= prev.push(lower_of(s.subrange(
                            start as int,
                            i as int,
                        ))));
                        let rest = scan_terms(s, i + 1, i + 1);
                        assert(scan_terms(s, i as int, start as int) =~= seq![s.subrange(
                            start as int,
                            i as int,
                        )] + rest);
                        assert(scan_terms(s, i as int, start as int).map_values(
                            |t: Seq<char>| lower_of(t),
                        ) =~= seq![lower_of(s.subrange(start as int, i as int))] + rest.map_values(
                            |t: Seq<char>| lower_of(t),
                        ));
                        assert(prev + scan_terms(s, i as int, start as int).map_values(
                            |t: Seq<char>| lower_of(t),
                        ) =~= self@ + rest.map_values(|t: Seq<char>| lower_of(t)));
                    }
                }
                start = i + 1;
            }
            i = i + 1;
        }
        if start < n {
            let run = crate::utils::copy_range(&cs, start, n);
            let term = chars_to_string(&run);
            let low = str_lower(term.as_str());
            let ghost prev = self@;
            self.terms.push(low);
            proof {
                assert(self@ =~= prev.push(lower_of(s.subrange(start as int, n as int))));
                assert(scan_terms(s, n as int, start as int) =~= seq![s.subrange(
                    start as int,
                    n as int,
                )]);
                assert(scan_terms(s, n as int, start as int).map_values(|t: Seq<char>| lower_of(t))
                    =~= seq![lower_of(s.subrange(start as int, n as int))]);
                assert(old(self)@ + lowered_terms_of(s) =~= self@);
            }
        } else {
            proof {
                assert(scan_terms(s, n as int, start as int) =~= Seq::<Seq<char>>::empty());
                assert(scan_terms(s, n as int, start as int).map_values(|t: Seq<char>| lower_of(t))
                    =~= Seq::<Seq<char>>::empty());
                assert(old(self)@ + lowered_terms_of(s) =~= self@);
            }
        }
    }

    /// The gathered term occurrences, in order.
    pub fn occurrences<'a>(&'a self) -> (r: &'a Vec<String>)
        ensures
            occurrences_view(r@) == self@,
    {
        &self.terms
    }
}

} // verus!
