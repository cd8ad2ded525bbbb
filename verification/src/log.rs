//! One transcript message block parsed into a structured log entry.
//!
//! A message block arrives as an ordered sequence of fields, each field an
//! ordered sequence of raw text lines. The first field names the tab, the
//! second the speaking character, and the third holds the message lines.
use vstd::prelude::*;
use vstd::seq_lib::lemma_flatten_concat;
use vstd::string::StrSliceExecFns;
use vstd::string::StringExecFns;
use unicode_segmentation::UnicodeSegmentation;

use crate::error::{FieldKind, ParseError, ParseErrorKind};
use crate::text::clean;
use crate::text::clean_string;

verus! {

/// One chat log entry: the tab it was posted on, the speaking character's
/// display name, and its message lines, all normalised.
#[derive(Debug)]
pub struct Log {
    pub tab: String,
    pub name: String,
    pub texts: Vec<String>,
}

/// The mathematical value of a [`Log`]: each string as its character sequence.
#[verifier::ext_equal]
pub struct LogView {
    pub tab: Seq<char>,
    pub name: Seq<char>,
    pub texts: Seq<Seq<char>>,
}

impl View for Log {
    type V = LogView;

    open spec fn view(&self) -> LogView {
        LogView { tab: self.tab@, name: self.name@, texts: self.texts.deep_view() }
    }
}

impl DeepView for Log {
    type V = LogView;

    open spec fn deep_view(&self) -> LogView {
        self.view()
    }
}

impl Clone for Log {
    fn clone(&self) -> (r: Log)
        ensures
            r@ == self@,
    {
        let texts = self.texts.clone();
        proof {
            assert(texts@ =~= self.texts@);
        }
        Log { tab: self.tab.clone(), name: self.name.clone(), texts }
    }
}

/// The grapheme clusters of a character sequence, per extended grapheme
/// cluster segmentation; a function of the characters alone.
pub uninterp spec fn graphemes_of(s: Seq<char>) -> Seq<Seq<char>>;

/// Relies on `unicode_segmentation::UnicodeSegmentation::graphemes` with
/// extended clusters: the clusters concatenate back to the input string and
/// depend on its characters alone.
#[verifier::external_body]
fn split_graphemes(s: &str) -> (r: Vec<String>)
    ensures
        r.deep_view() == graphemes_of(s@),
        r.deep_view().flatten() == s@,
{
    s.graphemes(true).map(|g| g.to_string()).collect()
}

/// The string slice holds exactly the one character `c`.
fn is_single_char(g: &str, c: char) -> (r: bool)
    ensures
        r == (g@ == seq![c]),
{
    if g.unicode_len() == 1 {
        let c0 = g.get_char(0);
        proof {
            if c0 == c {
                assert(g@ =~= seq![c]);
            } else {
                assert(g@[0] != seq![c][0]);
            }
        }
        c0 == c
    } else {
        proof {
            assert(g@.len() != seq![c].len());
        }
        false
    }
}

/// What validating a raw tab line yields: the line is normalised, decomposed
/// into grapheme clusters, required to start with `[` and end with `]`, and
/// stripped of those two clusters.
pub open spec fn tab_spec(raw: Seq<char>) -> Result<Seq<char>, ParseErrorKind> {
    let gs = graphemes_of(clean(raw));
    if gs.len() == 0 || gs[0] != seq!['['] || gs[gs.len() - 1] != seq![']'] {
        Err(ParseErrorKind::InvalidTabFormat)
    } else {
        Ok(gs.subrange(1, gs.len() - 1).flatten())
    }
}

impl Log {
    /// Validates a raw tab line and strips its enclosing brackets.
    ///
    /// On success the normalised line is exactly `[`, the returned value and
    /// `]`, so the brackets are stripped exactly once, whatever the interior
    /// characters are.
    pub fn validate_tab(tab: &str) -> (r: Result<String, ParseError>)
        ensures
            match r {
                Ok(t) => tab_spec(tab@) == Ok::<Seq<char>, ParseErrorKind>(t@) && clean(tab@)
                    == seq!['['] + t@ + seq![']'],
                Err(e) => tab_spec(tab@) == Err::<Seq<char>, ParseErrorKind>(e.kind),
            },
    {
        let cleaned = clean_string(tab);
        let gs = split_graphemes(cleaned.as_str());
        let ghost gsv = graphemes_of(clean(tab@));
        let n = gs.len();
        proof {
            assert(gs.deep_view().len() == gsv.len());
        }
        if n == 0 {
            return Err(ParseError { kind: ParseErrorKind::InvalidTabFormat });
        }
        proof {
            assert(gs.deep_view()[0] == gsv[0]);
            assert(gs.deep_view()[n - 1] == gsv[n - 1]);
        }
        if !is_single_char(gs[0].as_str(), '[') {
            return Err(ParseError { kind: ParseErrorKind::InvalidTabFormat });
        }
        if !is_single_char(gs[n - 1].as_str(), ']') {
            return Err(ParseError { kind: ParseErrorKind::InvalidTabFormat });
        }
        let mut out = String::new();
        let mut i: usize = 1;
        proof {
            // A single cluster cannot be both brackets at once.
            assert(n >= 2) by {
                if n == 1 {
                    assert('[' == gsv[0][0]);
                    assert(']' == gsv[0][0]);
                }
            }
            assert(gsv.subrange(1, 1).flatten() =~= Seq::<char>::empty());
        }
        while i < n - 1
            invariant
                1 <= i <= n - 1,
                n == gs@.len(),
                n == gsv.len(),
                gs.deep_view() == gsv,
                out@ == gsv.subrange(1, i as int).flatten(),
            decreases n - 1 - i,
        {
            out.append(gs[i].as_str());
            proof {
                broadcast use Seq::lemma_flatten_push;

                assert(gs.deep_view()[i as int] == gs@[i as int]@);
                assert(gsv.subrange(1, i + 1 as int) =~= gsv.subrange(1, i as int).push(
                    gsv[i as int],
                ));
            }
            i = i + 1;
        }
        proof {
            // The clusters concatenate back to the normalised line, so the
            // line is exactly `[`, the returned interior and `]`.
            assert(gsv =~= seq![gsv[0]] + gsv.subrange(1, n - 1) + seq![gsv[n - 1]]);
            lemma_flatten_concat(seq![gsv[0]] + gsv.subrange(1, n - 1), seq![gsv[n - 1]]);
            lemma_flatten_concat(seq![gsv[0]], gsv.subrange(1, n - 1));
            (seq![gsv[0]]).lemma_flatten_one_element();
            (seq![gsv[n - 1]]).lemma_flatten_one_element();
            assert(clean(tab@) == gsv.flatten());
            assert(clean(tab@) =~= seq!['['] + out@ + seq![']']);
        }
        Ok(out)
    }
}

/// A tab line is rejected whenever its normalised text does not begin with a
/// `[` cluster and end with a `]` cluster — in particular when it is empty or
/// consists of exactly one grapheme cluster, so that its first and last
/// cluster coincide.
pub proof fn lemma_tab_rejection(raw: Seq<char>)
    requires
        ({
            let gs = graphemes_of(clean(raw));
            gs.len() <= 1 || gs[0] != seq!['['] || gs[gs.len() - 1] != seq![']']
        }),
    ensures
        tab_spec(raw) == Err::<Seq<char>, ParseErrorKind>(ParseErrorKind::InvalidTabFormat),
{
    let gs = graphemes_of(clean(raw));
    if gs.len() == 1 && gs[0] == seq!['['] && gs[gs.len() - 1] == seq![']'] {
        assert('[' == gs[0][0]);
        assert(']' == gs[0][0]);
    }
}

/// What parsing one message block yields. The checks run in order — tab
/// field, name field, text field — and the first failure wins.
pub open spec fn parse_log_spec(fields: Seq<Seq<Seq<char>>>) -> Result<
    LogView,
    ParseErrorKind,
> {
    if fields.len() == 0 {
        Err(ParseErrorKind::MissingField(FieldKind::Tab))
    } else if fields[0].len() != 1 {
        Err(ParseErrorKind::WrongLineCount(FieldKind::Tab, fields[0].len() as usize))
    } else {
        match tab_spec(fields[0][0]) {
            Err(k) => Err(k),
            Ok(tab) => {
                if fields.len() == 1 {
                    Err(ParseErrorKind::MissingField(FieldKind::Name))
                } else if fields[1].len() != 1 {
                    Err(ParseErrorKind::WrongLineCount(FieldKind::Name, fields[1].len() as usize))
                } else if fields.len() == 2 {
                    Err(ParseErrorKind::MissingField(FieldKind::Text))
                } else {
                    Ok(
                        LogView {
                            tab,
                            name: clean(fields[1][0]),
                            texts: fields[2].map_values(|l: Seq<char>| clean(l)),
                        },
                    )
                }
            },
        }
    }
}

impl Log {
    /// Parses one message block, given as its fields' raw text lines, into a
    /// log entry; any fields beyond the third are ignored.
    pub fn new(fields: &Vec<Vec<String>>) -> (r: Result<Log, ParseError>)
        ensures
            match r {
                Ok(log) => parse_log_spec(fields.deep_view()) == Ok::<LogView, ParseErrorKind>(
                    log@,
                ),
                Err(e) => parse_log_spec(fields.deep_view()) == Err::<LogView, ParseErrorKind>(
                    e.kind,
                ),
            },
    {
        let ghost dv = fields.deep_view();
        if fields.len() == 0 {
            return Err(ParseError { kind: ParseErrorKind::MissingField(FieldKind::Tab) });
        }
        proof {
            assert(dv[0] == fields@[0].deep_view());
        }
        if fields[0].len() != 1 {
            return Err(
                ParseError {
                    kind: ParseErrorKind::WrongLineCount(FieldKind::Tab, fields[0].len()),
                },
            );
        }
        proof {
            assert(dv[0][0] == fields@[0]@[0]@);
        }
        let tab = match Log::validate_tab(fields[0][0].as_str()) {
            Ok(t) => t,
            Err(e) => {
                return Err(e);
            },
        };
        if fields.len() == 1 {
            return Err(ParseError { kind: ParseErrorKind::MissingField(FieldKind::Name) });
        }
        proof {
            assert(dv[1] == fields@[1].deep_view());
        }
        if fields[1].len() != 1 {
            return Err(
                ParseError {
                    kind: ParseErrorKind::WrongLineCount(FieldKind::Name, fields[1].len()),
                },
            );
        }
        proof {
            assert(dv[1][0] == fields@[1]@[0]@);
        }
        let name = clean_string(fields[1][0].as_str());
        if fields.len() == 2 {
            return Err(ParseError { kind: ParseErrorKind::MissingField(FieldKind::Text) });
        }
        let text_field = &fields[2];
        let mut texts: Vec<String> = Vec::new();
        let mut i: usize = 0;
        while i < text_field.len()
            invariant
                i <= text_field@.len(),
                texts.deep_view() == text_field.deep_view().subrange(0, i as int).map_values(
                    |l: Seq<char>| clean(l),
                ),
            decreases text_field@.len() - i,
        {
            let line = clean_string(text_field[i].as_str());
            texts.push(line);
            proof {
                let f = |l: Seq<char>| clean(l);
                let tdv = text_field.deep_view();
                let prev = tdv.subrange(0, i as int).map_values(f);
                assert(tdv[i as int] == text_field@[i as int]@);
                assert(texts.deep_view() =~= prev.push(f(tdv[i as int])));
                assert(prev.push(f(tdv[i as int])) =~= tdv.subrange(0, i + 1 as int).map_values(f));
            }
            i = i + 1;
        }
        proof {
            assert(dv[2] == fields@[2].deep_view());
            assert(text_field.deep_view().subrange(0, text_field.deep_view().len() as int)
                =~= text_field.deep_view());
        }
        let log = Log { tab, name, texts };
        proof {
            assert(log@ =~= parse_log_spec(dv)->Ok_0);
        }
        Ok(log)
    }
}

} // verus!
