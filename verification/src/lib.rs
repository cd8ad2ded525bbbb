//! Analysis of exported tabletop-RPG chat transcripts: each message block is
//! parsed into a structured log entry, entries are classified into dice-roll
//! outcome categories by Japanese keyword rules, skill tokens are counted per
//! category, and the results are grouped per character and rendered as text.
use vstd::prelude::*;
use vstd::string::StringExecFns;

pub mod error;
pub mod log;
pub mod log_summary;
pub mod text;

use crate::error::{ParseError, ParseErrorKind};
use crate::log::{parse_log_spec, Log, LogView};
use crate::log_summary::{classify_spec, summary_total, LogSummary, SummaryView};

verus! {

/// What parsing a whole batch of message blocks yields: every block parsed,
/// in order, or the first block's failure.
pub open spec fn parse_batch_spec(blocks: Seq<Seq<Seq<Seq<char>>>>) -> Result<
    Seq<LogView>,
    ParseErrorKind,
>
    decreases blocks.len(),
{
    if blocks.len() == 0 {
        Ok(Seq::<LogView>::empty())
    } else {
        match parse_batch_spec(blocks.drop_last()) {
            Err(k) => Err(k),
            Ok(s) => match parse_log_spec(blocks.last()) {
                Err(k) => Err(k),
                Ok(lv) => Ok(s.push(lv)),
            },
        }
    }
}

proof fn lemma_batch_err_extends(
    blocks: Seq<Seq<Seq<Seq<char>>>>,
    j: int,
    m: int,
    k: ParseErrorKind,
)
    requires
        0 <= j <= m <= blocks.len(),
        parse_batch_spec(blocks.subrange(0, j)) == Err::<Seq<LogView>, ParseErrorKind>(k),
    ensures
        parse_batch_spec(blocks.subrange(0, m)) == Err::<Seq<LogView>, ParseErrorKind>(k),
    decreases m - j,
{
    if m > j {
        lemma_batch_err_extends(blocks, j, m - 1, k);
        assert(blocks.subrange(0, m).drop_last() =~= blocks.subrange(0, m - 1));
    }
}

/// Parses every message block of a batch, strictly: the first malformed
/// block aborts the whole batch with its failure.
pub fn parse_batch(blocks: &Vec<Vec<Vec<String>>>) -> (r: Result<Vec<Log>, ParseError>)
    ensures
        match r {
            Ok(logs) => parse_batch_spec(blocks.deep_view()) == Ok::<Seq<LogView>, ParseErrorKind>(
                logs.deep_view(),
            ),
            Err(e) => parse_batch_spec(blocks.deep_view()) == Err::<Seq<LogView>, ParseErrorKind>(
                e.kind,
            ),
        },
{
    let ghost bv = blocks.deep_view();
    let mut logs: Vec<Log> = Vec::new();
    let mut i: usize = 0;
    proof {
        assert(bv.subrange(0, 0) =~= Seq::<Seq<Seq<Seq<char>>>>::empty());
        assert(logs.deep_view() =~= Seq::<LogView>::empty());
    }
    while i < blocks.len()
        invariant
            i <= blocks@.len(),
            blocks@.len() == bv.len(),
            bv == blocks.deep_view(),
            parse_batch_spec(bv.subrange(0, i as int)) == Ok::<Seq<LogView>, ParseErrorKind>(
                logs.deep_view(),
            ),
        decreases blocks@.len() - i,
    {
        let ghost prev = logs.deep_view();
        proof {
            assert(bv[i as int] == blocks@[i as int].deep_view());
            assert(bv.subrange(0, i + 1 as int).drop_last() =~= bv.subrange(0, i as int));
            assert(bv.subrange(0, i + 1 as int).last() == bv[i as int]);
        }
        match Log::new(&blocks[i]) {
            Ok(log) => {
                logs.push(log);
                proof {
                    assert(logs.deep_view() =~= prev.push(log@));
                }
            },
            Err(e) => {
                proof {
                    lemma_batch_err_extends(bv, i + 1 as int, bv.len() as int, e.kind);
                    assert(bv.subrange(0, bv.len() as int) =~= bv);
                }
                return Err(e);
            },
        }
        i = i + 1;
    }
    proof {
        assert(bv.subrange(0, bv.len() as int) =~= bv);
    }
    Ok(logs)
}

/// An entry whose text is exactly the single line `---start---`: the source's
/// mark that everything above it is to be ignored.
pub open spec fn is_start_marker(lv: LogView) -> bool {
    lv.texts.len() == 1 && lv.texts[0] == "---start---"@
}

/// The entries after the last start marker; a marker discards everything
/// accumulated before it, itself included.
pub open spec fn after_start(s: Seq<LogView>) -> Seq<LogView>
    decreases s.len(),
{
    if s.len() == 0 {
        s
    } else {
        let prev = after_start(s.drop_last());
        if is_start_marker(s.last()) {
            Seq::<LogView>::empty()
        } else {
            prev.push(s.last())
        }
    }
}

/// A start marker wipes history: the result over a batch equals the result
/// over what follows the marker alone.
pub proof fn lemma_start_marker_discards(s: Seq<LogView>, k: int)
    requires
        0 <= k < s.len(),
        is_start_marker(s[k]),
    ensures
        after_start(s) == after_start(s.skip(k + 1)),
    decreases s.len(),
{
    if s.len() == k + 1 {
        assert(after_start(s) == Seq::<LogView>::empty());
        assert(s.skip(k + 1) =~= Seq::<LogView>::empty());
    } else {
        assert(s.drop_last()[k] == s[k]);
        lemma_start_marker_discards(s.drop_last(), k);
        assert(s.drop_last().skip(k + 1) =~= s.skip(k + 1).drop_last());
        assert(s.skip(k + 1).last() == s.last());
    }
}

/// Whether this entry is the start marker.
fn is_start_marker_exec(log: &Log) -> (r: bool)
    ensures
        r == is_start_marker(log@),
{
    if log.texts.len() != 1 {
        return false;
    }
    let marker = String::from_str("---start---");
    proof {
        assert(log@.texts[0] == log.texts@[0]@);
    }
    log.texts[0] == marker
}

/// Applies the start-marker policy to a parsed batch: entries before the
/// last `---start---` entry are discarded, the marker with them.
pub fn drop_before_start(logs: &Vec<Log>) -> (r: Vec<Log>)
    ensures
        r.deep_view() == after_start(logs.deep_view()),
{
    let ghost dv = logs.deep_view();
    let mut out: Vec<Log> = Vec::new();
    let mut i: usize = 0;
    proof {
        assert(out.deep_view() =~= after_start(dv.subrange(0, 0)));
    }
    while i < logs.len()
        invariant
            i <= logs@.len(),
            logs@.len() == dv.len(),
            dv == logs.deep_view(),
            out.deep_view() == after_start(dv.subrange(0, i as int)),
        decreases logs@.len() - i,
    {
        let ghost prev = out.deep_view();
        proof {
            assert(dv[i as int] == logs@[i as int]@);
            assert(dv.subrange(0, i + 1 as int).drop_last() =~= dv.subrange(0, i as int));
            assert(dv.subrange(0, i + 1 as int).last() == dv[i as int]);
        }
        if is_start_marker_exec(&logs[i]) {
            out = Vec::new();
            proof {
                assert(out.deep_view() =~= Seq::<LogView>::empty());
            }
        } else {
            let x = logs[i].clone();
            out.push(x);
            proof {
                assert(out.deep_view() =~= prev.push(dv[i as int]));
            }
        }
        i = i + 1;
    }
    proof {
        assert(dv.subrange(0, dv.len() as int) =~= dv);
    }
    out
}

/// The whole-transcript summary: all entries classified together.
pub fn get_log_summary(logs: &Vec<Log>) -> (r: LogSummary)
    ensures
        r@ == classify_spec(logs.deep_view()),
{
    LogSummary::new(logs)
}

/// The distinct character names of the entries, in first-occurrence order.
pub open spec fn names_in_order(logs: Seq<LogView>) -> Seq<Seq<char>>
    decreases logs.len(),
{
    if logs.len() == 0 {
        Seq::<Seq<char>>::empty()
    } else {
        let prev = names_in_order(logs.drop_last());
        if prev.contains(logs.last().name) {
            prev
        } else {
            prev.push(logs.last().name)
        }
    }
}

/// The entries of one character, in order.
pub open spec fn logs_of_name(logs: Seq<LogView>, name: Seq<char>) -> Seq<LogView> {
    logs.filter(|l: LogView| l.name == name)
}

/// The per-character report: each character's entries classified, characters
/// in first-occurrence order, and characters with no classified entry at all
/// left out.
pub open spec fn pc_summary_spec(logs: Seq<LogView>) -> Seq<(Seq<char>, SummaryView)> {
    names_in_order(logs).filter(
        |n: Seq<char>| summary_total(classify_spec(logs_of_name(logs, n))) > 0,
    ).map_values(|n: Seq<char>| (n, classify_spec(logs_of_name(logs, n))))
}

/// The vector holds a string whose characters are `name`.
fn contains_string(v: &Vec<String>, name: &String) -> (r: bool)
    ensures
        r == v.deep_view().contains(name@),
{
    let n = v.len();
    let mut i: usize = 0;
    while i < n
        invariant
            i <= n,
            n == v@.len(),
            forall|k: int| 0 <= k < i ==> v.deep_view()[k] != name@,
        decreases n - i,
    {
        if v[i] == *name {
            proof {
                assert(v.deep_view()[i as int] == name@);
            }
            return true;
        }
        proof {
            assert(v.deep_view()[i as int] == v@[i as int]@);
        }
        i = i + 1;
    }
    proof {
        assert(forall|k: int| 0 <= k < v.deep_view().len() ==> v.deep_view()[k] != name@);
    }
    false
}

/// The entries whose character name is exactly `name`, in order.
fn filter_by_name(logs: &Vec<Log>, name: &String) -> (r: Vec<Log>)
    ensures
        r.deep_view() == logs_of_name(logs.deep_view(), name@),
{
    let ghost pred = |l: LogView| l.name == name@;
    let mut out: Vec<Log> = Vec::new();
    let mut i: usize = 0;
    proof {
        reveal(Seq::filter);
        assert(out.deep_view() =~= logs.deep_view().subrange(0, 0).filter(pred));
    }
    while i < logs.len()
        invariant
            i <= logs@.len(),
            logs@.len() == logs.deep_view().len(),
            pred == (|l: LogView| l.name == name@),
            out.deep_view() == logs.deep_view().subrange(0, i as int).filter(pred),
        decreases logs@.len() - i,
    {
        let ghost prev = out.deep_view();
        proof {
            assert(logs.deep_view()[i as int] == logs@[i as int]@);
        }
        if logs[i].name == *name {
            let x = logs[i].clone();
            out.push(x);
        }
        proof {
            reveal(Seq::filter);
            let dv = logs.deep_view();
            let ext = dv.subrange(0, i + 1 as int);
            assert(ext.drop_last() =~= dv.subrange(0, i as int));
            assert(ext.last() == dv[i as int]);
            if pred(dv[i as int]) {
                assert(out.deep_view() =~= prev.push(dv[i as int]));
            } else {
                assert(out.deep_view() =~= prev);
            }
        }
        i = i + 1;
    }
    proof {
        assert(logs.deep_view().subrange(0, logs.deep_view().len() as int) =~= logs.deep_view());
    }
    out
}

/// Groups the entries by character name and classifies each group; a name
/// whose four buckets all come out empty is dropped from the report.
pub fn get_pc_summary(logs: &Vec<Log>) -> (r: Vec<(String, LogSummary)>)
    ensures
        r.deep_view() == pc_summary_spec(logs.deep_view()),
{
    let ghost dv = logs.deep_view();
    let ghost pred = |n: Seq<char>| summary_total(classify_spec(logs_of_name(dv, n))) > 0;
    let ghost f = |n: Seq<char>| (n, classify_spec(logs_of_name(dv, n)));
    let mut seen: Vec<String> = Vec::new();
    let mut out: Vec<(String, LogSummary)> = Vec::new();
    let mut i: usize = 0;
    proof {
        reveal(Seq::filter);
        assert(seen.deep_view() =~= names_in_order(dv.subrange(0, 0)));
        assert(out.deep_view() =~= names_in_order(dv.subrange(0, 0)).filter(pred).map_values(f));
    }
    while i < logs.len()
        invariant
            i <= logs@.len(),
            logs@.len() == dv.len(),
            dv == logs.deep_view(),
            pred == (|n: Seq<char>| summary_total(classify_spec(logs_of_name(dv, n))) > 0),
            f == (|n: Seq<char>| (n, classify_spec(logs_of_name(dv, n)))),
            seen.deep_view() == names_in_order(dv.subrange(0, i as int)),
            out.deep_view() == names_in_order(dv.subrange(0, i as int)).filter(pred).map_values(f),
        decreases logs@.len() - i,
    {
        let ghost prev_seen = seen.deep_view();
        let ghost prev_out = out.deep_view();
        proof {
            assert(dv[i as int] == logs@[i as int]@);
            assert(dv.subrange(0, i + 1 as int).drop_last() =~= dv.subrange(0, i as int));
            assert(dv.subrange(0, i + 1 as int).last() == dv[i as int]);
        }
        let name = &logs[i].name;
        if !contains_string(&seen, name) {
            seen.push(name.clone());
            proof {
                assert(seen.deep_view() =~= prev_seen.push(name@));
            }
            let group = filter_by_name(logs, name);
            let summary = LogSummary::new(&group);
            let nonzero = summary.successes.len() > 0 || summary.failures.len() > 0
                || summary.criticals.len() > 0 || summary.fumbles.len() > 0;
            proof {
                reveal(Seq::filter);
                assert(summary@ == classify_spec(logs_of_name(dv, name@)));
                assert(nonzero == pred(name@));
                assert(names_in_order(dv.subrange(0, i + 1 as int)) == prev_seen.push(name@));
                assert(prev_seen.push(name@).drop_last() =~= prev_seen);
            }
            if nonzero {
                let key = name.clone();
                out.push((key, summary));
                proof {
                    assert(out.deep_view() =~= prev_out.push(f(name@)));
                    assert(prev_seen.push(name@).filter(pred) =~= prev_seen.filter(pred).push(
                        name@,
                    ));
                }
            } else {
                proof {
                    assert(prev_seen.push(name@).filter(pred) =~= prev_seen.filter(pred));
                }
            }
        } else {
            proof {
                assert(names_in_order(dv.subrange(0, i + 1 as int)) == prev_seen);
            }
        }
        i = i + 1;
    }
    proof {
        assert(dv.subrange(0, dv.len() as int) =~= dv);
    }
    out
}

/// A character whose four buckets all come out empty never appears in the
/// per-character report.
pub proof fn lemma_zero_total_name_dropped(logs: Seq<LogView>, n: Seq<char>)
    requires
        summary_total(classify_spec(logs_of_name(logs, n))) == 0,
    ensures
        forall|k: int|
            0 <= k < pc_summary_spec(logs).len() ==> (#[trigger] pc_summary_spec(logs)[k]).0 != n,
{
    broadcast use Seq::lemma_filter_pred;

    let pred = |m: Seq<char>| summary_total(classify_spec(logs_of_name(logs, m))) > 0;
    let f = |m: Seq<char>| (m, classify_spec(logs_of_name(logs, m)));
    let kept = names_in_order(logs).filter(pred);
    assert forall|k: int| 0 <= k < pc_summary_spec(logs).len() implies (#[trigger] pc_summary_spec(
        logs,
    )[k]).0 != n by {
        assert(pc_summary_spec(logs)[k] == f(kept[k]));
        assert(pred(kept[k]));
    }
}

} // verus!
