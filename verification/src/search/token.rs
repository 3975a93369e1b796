//! The query tokenizer. Each character of the query either ends a word,
//! forms a token of its own, or is discarded; every other character extends
//! the current word.

use vstd::prelude::*;

use crate::file::spec_valid_name_char;
use crate::file::IsValidWindowsFileName;

verus! {

#[derive(PartialEq, Eq, Clone, Copy, Debug, Structural)]
pub enum Opening {
    Opened,
    Closed,
}

#[derive(PartialEq, Debug, Clone)]
pub enum SearchParamsToken {
    Word(String),
    Or,
    Delimiter(Opening),
    Paren(Opening),
    Inverter,
}

/// The mathematical form of a token: a word carries its characters.
pub enum TokenModel {
    Word(Seq<char>),
    Or,
    FieldOpen,
    FieldClose,
    GroupOpen,
    GroupClose,
    Not,
}

impl View for SearchParamsToken {
    type V = TokenModel;

    open spec fn view(&self) -> TokenModel {
        match self {
            SearchParamsToken::Word(s) => TokenModel::Word(s@),
            SearchParamsToken::Or => TokenModel::Or,
            SearchParamsToken::Delimiter(Opening::Opened) => TokenModel::FieldOpen,
            SearchParamsToken::Delimiter(Opening::Closed) => TokenModel::FieldClose,
            SearchParamsToken::Paren(Opening::Opened) => TokenModel::GroupOpen,
            SearchParamsToken::Paren(Opening::Closed) => TokenModel::GroupClose,
            SearchParamsToken::Inverter => TokenModel::Not,
        }
    }
}

pub open spec fn tokens_view(ts: Seq<SearchParamsToken>) -> Seq<TokenModel> {
    ts.map_values(|t: SearchParamsToken| t@)
}

pub proof fn lemma_tokens_view_push(ts: Seq<SearchParamsToken>, t: SearchParamsToken)
    ensures
        tokens_view(ts.push(t)) == tokens_view(ts).push(t@),
{
    assert(tokens_view(ts.push(t)) =~= tokens_view(ts).push(t@));
}

/// A character that accumulates into a word: anything the tokenizer does
/// not treat specially.
pub open spec fn spec_word_char(c: char) -> bool {
    spec_valid_name_char(c) && c != ' ' && c != '(' && c != ')'
}

/// The length of the run of word characters at the front of `s`.
pub open spec fn spec_word_len(s: Seq<char>) -> nat
    decreases s.len(),
{
    if s.len() == 0 || !spec_word_char(s[0]) {
        0
    } else {
        1 + spec_word_len(s.drop_first())
    }
}

pub proof fn lemma_word_len_le(s: Seq<char>)
    ensures
        spec_word_len(s) <= s.len(),
    decreases s.len(),
{
    if s.len() > 0 && spec_word_char(s[0]) {
        lemma_word_len_le(s.drop_first());
    }
}

/// The leading word run of `s.skip(a)` ends exactly at `b`.
proof fn lemma_word_len_run(s: Seq<char>, a: int, b: int)
    requires
        0 <= a <= b <= s.len(),
        forall|k: int| a <= k < b ==> spec_word_char(s[k]),
        b == s.len() || !spec_word_char(s[b]),
    ensures
        spec_word_len(s.skip(a)) == b - a,
    decreases b - a,
{
    if a < b {
        lemma_word_len_run(s, a + 1, b);
        assert(s.skip(a).drop_first() =~= s.skip(a + 1));
        assert(s.skip(a)[0] == s[a]);
    } else {
        if a < s.len() {
            assert(s.skip(a)[0] == s[a]);
        }
    }
}

/// The token stream of `s`: a space ends any word; `| < > ( ) ?` become
/// tokens of their own; `\ / : * "` end any word and are dropped; every
/// other character extends the current word.
pub open spec fn spec_tokenize(s: Seq<char>) -> Seq<TokenModel>
    decreases s.len(),
    via spec_tokenize_decreases
{
    if s.len() == 0 {
        Seq::empty()
    } else if s[0] == ' ' {
        spec_tokenize(s.drop_first())
    } else if s[0] == '|' {
        seq![TokenModel::Or] + spec_tokenize(s.drop_first())
    } else if s[0] == '<' {
        seq![TokenModel::FieldOpen] + spec_tokenize(s.drop_first())
    } else if s[0] == '>' {
        seq![TokenModel::FieldClose] + spec_tokenize(s.drop_first())
    } else if s[0] == '(' {
        seq![TokenModel::GroupOpen] + spec_tokenize(s.drop_first())
    } else if s[0] == ')' {
        seq![TokenModel::GroupClose] + spec_tokenize(s.drop_first())
    } else if s[0] == '?' {
        seq![TokenModel::Not] + spec_tokenize(s.drop_first())
    } else if !spec_word_char(s[0]) {
        spec_tokenize(s.drop_first())
    } else {
        seq![TokenModel::Word(s.take(spec_word_len(s) as int))] + spec_tokenize(
            s.skip(spec_word_len(s) as int),
        )
    }
}

#[via_fn]
proof fn spec_tokenize_decreases(s: Seq<char>) {
    if s.len() > 0 && spec_word_char(s[0]) {
        lemma_word_len_le(s);
        assert(spec_word_len(s) >= 1);
    }
}

fn is_word_char(c: char) -> (r: bool)
    ensures
        r == spec_word_char(c),
{
    c.is_valid_windows_file_name() && c != ' ' && c != '(' && c != ')'
}

/// Walks a borrowed query string and hands out its tokens.
pub struct SearchParamsTokenizer<'a> {
    s: &'a str,
    pos: usize,
}

impl<'a> SearchParamsTokenizer<'a> {
    pub closed spec fn input(&self) -> Seq<char> {
        self.s@
    }

    pub closed spec fn spec_pos(&self) -> int {
        self.pos as int
    }

    pub open spec fn wf(&self) -> bool {
        self.spec_pos() <= self.input().len()
    }

    pub fn new(s: &'a str) -> (r: Self)
        ensures
            r.input() == s@,
            r.spec_pos() == 0,
            r.wf(),
    {
        SearchParamsTokenizer { s, pos: 0 }
    }

    /// Tokenizes everything that has not been walked yet; a tokenizer fresh
    /// from [`Self::new`] yields the token stream of the whole query.
    pub fn tokens(&mut self) -> (r: Vec<SearchParamsToken>)
        requires
            old(self).wf(),
        ensures
            tokens_view(r@) == spec_tokenize(old(self).input().skip(old(self).spec_pos())),
            final(self).input() == old(self).input(),
            final(self).spec_pos() == final(self).input().len(),
            final(self).wf(),
    {
        let s = self.s;
        let start0 = self.pos;
        let n = s.unicode_len();
        let mut pos = start0;
        let mut out: Vec<SearchParamsToken> = Vec::new();
        while pos < n
            invariant
                start0 <= pos <= n,
                n == s@.len(),
                tokens_view(out@) + spec_tokenize(s@.skip(pos as int)) == spec_tokenize(
                    s@.skip(start0 as int),
                ),
            decreases n - pos,
        {
            let ghost rest = s@.skip(pos as int);
            proof {
                assert(rest[0] == s@[pos as int]);
                assert(rest.drop_first() =~= s@.skip(pos as int + 1));
            }
            let ghost out0 = out@;
            let c = s.get_char(pos);
            if c == ' ' {
                pos += 1;
            } else if c == '|' {
                out.push(SearchParamsToken::Or);
                pos += 1;
                proof {
                    lemma_tokens_view_push(out0, SearchParamsToken::Or);
                }
            } else if c == '<' {
                out.push(SearchParamsToken::Delimiter(Opening::Opened));
                pos += 1;
                proof {
                    lemma_tokens_view_push(out0, SearchParamsToken::Delimiter(Opening::Opened));
                }
            } else if c == '>' {
                out.push(SearchParamsToken::Delimiter(Opening::Closed));
                pos += 1;
                proof {
                    lemma_tokens_view_push(out0, SearchParamsToken::Delimiter(Opening::Closed));
                }
            } else if c == '(' {
                out.push(SearchParamsToken::Paren(Opening::Opened));
                pos += 1;
                proof {
                    lemma_tokens_view_push(out0, SearchParamsToken::Paren(Opening::Opened));
                }
            } else if c == ')' {
                out.push(SearchParamsToken::Paren(Opening::Closed));
                pos += 1;
                proof {
                    lemma_tokens_view_push(out0, SearchParamsToken::Paren(Opening::Closed));
                }
            } else if c == '?' {
                out.push(SearchParamsToken::Inverter);
                pos += 1;
                proof {
                    lemma_tokens_view_push(out0, SearchParamsToken::Inverter);
                }
            } else if !is_word_char(c) {
                pos += 1;
            } else {
                let start = pos;
                pos += 1;
                while pos < n && is_word_char(s.get_char(pos))
                    invariant
                        start < pos <= n,
                        n == s@.len(),
                        forall|k: int| start <= k < pos ==> spec_word_char(s@[k]),
                    decreases n - pos,
                {
                    pos += 1;
                }
                let w = s.substring_char(start, pos).to_owned();
                out.push(SearchParamsToken::Word(w));
                proof {
                    lemma_word_len_run(s@, start as int, pos as int);
                    assert(rest.take(pos - start) =~= s@.subrange(start as int, pos as int));
                    assert(rest.skip(pos - start) =~= s@.skip(pos as int));
                    lemma_tokens_view_push(out0, SearchParamsToken::Word(w));
                    assert(tokens_view(out@) + spec_tokenize(s@.skip(pos as int)) =~= tokens_view(
                        out0,
                    ) + spec_tokenize(rest));
                }
            }
            proof {
                assert(tokens_view(out@) + spec_tokenize(s@.skip(pos as int)) =~= spec_tokenize(
                    s@.skip(start0 as int),
                ));
            }
        }
        proof {
            assert(s@.skip(pos as int) =~= Seq::<char>::empty());
            assert(tokens_view(out@) =~= tokens_view(out@) + spec_tokenize(s@.skip(pos as int)));
        }
        self.pos = n;
        out
    }
}

} // verus!
