//! Outcome classification of log entries, skill-token extraction and the
//! textual report renderings.
//!
//! Classification is substring-based: four independent keyword predicates
//! over an entry's text lines, one per outcome category. The two compound
//! markers (decisive success, fatal failure) textually contain the plain
//! markers, so the plain predicates exclude them explicitly; a single entry
//! may still satisfy several predicates through different lines.
use vstd::prelude::*;
use vstd::string::StringExecFns;

use crate::log::{Log, LogView};
use crate::text::chars_vec;
use crate::text::contains_sub;
use crate::text::contains_chars;
use crate::text::dec_str;
use crate::text::find_delim;
use crate::text::join_sep;
use crate::text::join_strings;
use crate::text::prefix_trimmed;
use crate::text::push_decimal;
use crate::text::sort_lex;
use crate::text::sort_strings;
use crate::text::string_of;
use crate::text::token_of;

verus! {

/// The plain-success keyword 成功.
pub open spec fn success_marker() -> Seq<char> {
    seq!['成', '功']
}

/// The special-success keyword スペシャル, also counted as plain success.
pub open spec fn special_marker() -> Seq<char> {
    seq!['ス', 'ペ', 'シ', 'ャ', 'ル']
}

/// The decisive-success keyword 決定的成功; it contains 成功, so plain
/// success must exclude it.
pub open spec fn critical_marker() -> Seq<char> {
    seq!['決', '定', '的', '成', '功']
}

/// The plain-failure keyword 失敗.
pub open spec fn failure_marker() -> Seq<char> {
    seq!['失', '敗']
}

/// The fatal-failure keyword 致命的失敗; it contains 失敗, so plain failure
/// must exclude it.
pub open spec fn fumble_marker() -> Seq<char> {
    seq!['致', '命', '的', '失', '敗']
}

/// One of the four outcome categories a report can detail.
#[derive(Clone, Copy, Debug, PartialEq, Eq, Structural)]
pub enum UserChoice {
    Success,
    Failure,
    Critical,
    Fumble,
}

/// The keyword rule of one category, applied to a single text line.
pub open spec fn line_matches(c: UserChoice, t: Seq<char>) -> bool {
    match c {
        UserChoice::Success => (contains_sub(t, success_marker()) || contains_sub(
            t,
            special_marker(),
        )) && !contains_sub(t, critical_marker()),
        UserChoice::Failure => contains_sub(t, failure_marker()) && !contains_sub(
            t,
            fumble_marker(),
        ),
        UserChoice::Critical => contains_sub(t, critical_marker()),
        UserChoice::Fumble => contains_sub(t, fumble_marker()),
    }
}

/// An entry belongs to a category when any of its lines matches the rule.
pub open spec fn log_matches(c: UserChoice, lv: LogView) -> bool {
    exists|i: int| 0 <= i < lv.texts.len() && line_matches(c, #[trigger] lv.texts[i])
}

fn success_chars() -> (r: Vec<char>)
    ensures
        r@ == success_marker(),
{
    let v = vec!['成', '功'];
    proof {
        assert(v@ =~= success_marker());
    }
    v
}

fn special_chars() -> (r: Vec<char>)
    ensures
        r@ == special_marker(),
{
    let v = vec!['ス', 'ペ', 'シ', 'ャ', 'ル'];
    proof {
        assert(v@ =~= special_marker());
    }
    v
}

fn critical_chars() -> (r: Vec<char>)
    ensures
        r@ == critical_marker(),
{
    let v = vec!['決', '定', '的', '成', '功'];
    proof {
        assert(v@ =~= critical_marker());
    }
    v
}

fn failure_chars() -> (r: Vec<char>)
    ensures
        r@ == failure_marker(),
{
    let v = vec!['失', '敗'];
    proof {
        assert(v@ =~= failure_marker());
    }
    v
}

fn fumble_chars() -> (r: Vec<char>)
    ensures
        r@ == fumble_marker(),
{
    let v = vec!['致', '命', '的', '失', '敗'];
    proof {
        assert(v@ =~= fumble_marker());
    }
    v
}

fn line_matches_exec(c: UserChoice, t: &Vec<char>) -> (r: bool)
    ensures
        r == line_matches(c, t@),
{
    match c {
        UserChoice::Success => {
            let suc = success_chars();
            let spe = special_chars();
            let cri = critical_chars();
            (contains_chars(t, &suc) || contains_chars(t, &spe)) && !contains_chars(t, &cri)
        },
        UserChoice::Failure => {
            let fai = failure_chars();
            let fum = fumble_chars();
            contains_chars(t, &fai) && !contains_chars(t, &fum)
        },
        UserChoice::Critical => {
            let cri = critical_chars();
            contains_chars(t, &cri)
        },
        UserChoice::Fumble => {
            let fum = fumble_chars();
            contains_chars(t, &fum)
        },
    }
}

fn log_matches_exec(c: UserChoice, log: &Log) -> (r: bool)
    ensures
        r == log_matches(c, log@),
{
    let n = log.texts.len();
    let mut i: usize = 0;
    while i < n
        invariant
            i <= n,
            n == log.texts@.len(),
            forall|k: int| 0 <= k < i ==> !line_matches(c, #[trigger] log@.texts[k]),
        decreases n - i,
    {
        proof {
            assert(log@.texts[i as int] == log.texts@[i as int]@);
        }
        let tv = chars_vec(log.texts[i].as_str());
        if line_matches_exec(c, &tv) {
            return true;
        }
        i = i + 1;
    }
    false
}

/// The entries of one category, in their original relative order.
pub open spec fn bucket_spec(c: UserChoice, logs: Seq<LogView>) -> Seq<LogView> {
    logs.filter(|l: LogView| log_matches(c, l))
}

/// The four buckets classification derives from one collection of entries.
#[verifier::ext_equal]
pub struct SummaryView {
    pub successes: Seq<LogView>,
    pub failures: Seq<LogView>,
    pub criticals: Seq<LogView>,
    pub fumbles: Seq<LogView>,
}

/// Classification: the four independent filters over the same entries.
pub open spec fn classify_spec(logs: Seq<LogView>) -> SummaryView {
    SummaryView {
        successes: bucket_spec(UserChoice::Success, logs),
        failures: bucket_spec(UserChoice::Failure, logs),
        criticals: bucket_spec(UserChoice::Critical, logs),
        fumbles: bucket_spec(UserChoice::Fumble, logs),
    }
}

/// How many entries a summary holds over all four buckets.
pub open spec fn summary_total(sv: SummaryView) -> int {
    sv.successes.len() + sv.failures.len() + sv.criticals.len() + sv.fumbles.len() as int
}

fn filter_matching(c: UserChoice, logs: &Vec<Log>) -> (r: Vec<Log>)
    ensures
        r.deep_view() == bucket_spec(c, logs.deep_view()),
{
    let ghost pred = |l: LogView| log_matches(c, l);
    let mut out: Vec<Log> = Vec::new();
    let mut i: usize = 0;
    proof {
        reveal(Seq::filter);
        assert(out.deep_view() =~= logs.deep_view().subrange(0, 0).filter(pred));
    }
    while i < logs.len()
        invariant
            i <= logs@.len(),
            logs@.len() == logs.deep_view().len(),
            pred == (|l: LogView| log_matches(c, l)),
            out.deep_view() == logs.deep_view().subrange(0, i as int).filter(pred),
        decreases logs@.len() - i,
    {
        let ghost prev = out.deep_view();
        proof {
            assert(logs.deep_view()[i as int] == logs@[i as int]@);
        }
        if log_matches_exec(c, &logs[i]) {
            let x = logs[i].clone();
            out.push(x);
        }
        proof {
            reveal(Seq::filter);
            let dv = logs.deep_view();
            let ext = dv.subrange(0, i + 1 as int);
            assert(ext.drop_last() =~= dv.subrange(0, i as int));
            assert(ext.last() == dv[i as int]);
            if pred(dv[i as int]) {
                assert(out.deep_view() =~= prev.push(dv[i as int]));
            } else {
                assert(out.deep_view() =~= prev);
            }
        }
        i = i + 1;
    }
    proof {
        assert(logs.deep_view().subrange(0, logs.deep_view().len() as int) =~= logs.deep_view());
    }
    out
}

/// Entries split into the four outcome buckets, each bucket order-preserving.
pub struct LogSummary {
    pub successes: Vec<Log>,
    pub failures: Vec<Log>,
    pub criticals: Vec<Log>,
    pub fumbles: Vec<Log>,
}

impl View for LogSummary {
    type V = SummaryView;

    open spec fn view(&self) -> SummaryView {
        SummaryView {
            successes: self.successes.deep_view(),
            failures: self.failures.deep_view(),
            criticals: self.criticals.deep_view(),
            fumbles: self.fumbles.deep_view(),
        }
    }
}

/// The skill token of one line, if the line has the full-width delimiter.
pub fn extract_skills_from_log_text(text: &str) -> (r: Option<String>)
    ensures
        match r {
            Some(t) => token_of(text@) == Some(t@),
            None => token_of(text@) is None,
        },
{
    let cs = chars_vec(text);
    match find_delim(&cs) {
        Some(i) => {
            let pre = prefix_trimmed(&cs, i);
            Some(string_of(&pre))
        },
        None => None,
    }
}

/// An association holds the key.
pub open spec fn has_key(s: Seq<(Seq<char>, int)>, k: Seq<char>) -> bool {
    exists|i: int| 0 <= i < s.len() && (#[trigger] s[i]).0 == k
}

/// The position of the key; meaningful when keys are distinct.
pub open spec fn key_index(s: Seq<(Seq<char>, int)>, k: Seq<char>) -> int {
    choose|i: int| 0 <= i < s.len() && (#[trigger] s[i]).0 == k
}

/// No key occurs twice.
pub open spec fn keys_distinct(s: Seq<(Seq<char>, int)>) -> bool {
    forall|i: int, j: int|
        #![all_triggers]
        0 <= i < j < s.len() ==> s[i].0 != s[j].0
}

/// The count recorded for a key, if it is present.
pub open spec fn count_of(s: Seq<(Seq<char>, int)>, k: Seq<char>) -> Option<int> {
    if has_key(s, k) {
        Some(s[key_index(s, k)].1)
    } else {
        None
    }
}

/// One more occurrence of token `k`: its count rises by one, or a new pair
/// with count one is appended.
pub open spec fn bump(s: Seq<(Seq<char>, int)>, k: Seq<char>) -> Seq<(Seq<char>, int)> {
    if has_key(s, k) {
        s.update(key_index(s, k), (k, s[key_index(s, k)].1 + 1))
    } else {
        s.push((k, 1))
    }
}

/// The counts after consuming the given lines, front to back.
pub open spec fn counts_after_lines(
    acc: Seq<(Seq<char>, int)>,
    lines: Seq<Seq<char>>,
) -> Seq<(Seq<char>, int)>
    decreases lines.len(),
{
    if lines.len() == 0 {
        acc
    } else {
        let acc2 = match token_of(lines.first()) {
            Some(t) => bump(acc, t),
            None => acc,
        };
        counts_after_lines(acc2, lines.drop_first())
    }
}

/// The counts after consuming every line of every entry, in order.
pub open spec fn counts_after_logs(
    acc: Seq<(Seq<char>, int)>,
    logs: Seq<LogView>,
) -> Seq<(Seq<char>, int)>
    decreases logs.len(),
{
    if logs.len() == 0 {
        acc
    } else {
        counts_after_logs(counts_after_lines(acc, logs.first().texts), logs.drop_first())
    }
}

/// The skill-frequency association of a group of entries: tokens in first
/// occurrence order, each with its number of occurrences.
pub open spec fn skill_counts_of(logs: Seq<LogView>) -> Seq<(Seq<char>, int)> {
    counts_after_logs(Seq::empty(), logs)
}

/// How many text lines a group of entries holds in all.
pub open spec fn total_lines(logs: Seq<LogView>) -> int
    decreases logs.len(),
{
    if logs.len() == 0 {
        0
    } else {
        logs.first().texts.len() + total_lines(logs.drop_first())
    }
}

proof fn lemma_total_lines_nonneg(logs: Seq<LogView>)
    ensures
        total_lines(logs) >= 0,
    decreases logs.len(),
{
    if logs.len() > 0 {
        lemma_total_lines_nonneg(logs.drop_first());
    }
}

/// A skill-frequency mapping: tokens in first-occurrence order, each with its
/// occurrence count; no token occurs twice.
pub struct SkillCounts {
    pairs: Vec<(String, usize)>,
}

impl View for SkillCounts {
    type V = Seq<(Seq<char>, int)>;

    closed spec fn view(&self) -> Seq<(Seq<char>, int)> {
        Seq::new(self.pairs@.len(), |i: int| (self.pairs@[i].0@, self.pairs@[i].1 as int))
    }
}

impl SkillCounts {
    /// An empty mapping.
    pub fn new() -> (r: SkillCounts)
        ensures
            r@ == Seq::<(Seq<char>, int)>::empty(),
            keys_distinct(r@),
    {
        let r = SkillCounts { pairs: Vec::new() };
        proof {
            assert(r@ =~= Seq::<(Seq<char>, int)>::empty());
        }
        r
    }

    /// How many distinct tokens the mapping holds.
    pub fn len(&self) -> (r: usize)
        ensures
            r == self@.len(),
    {
        self.pairs.len()
    }

    /// The token and count at one position.
    pub fn pair_at(&self, i: usize) -> (r: (&String, usize))
        requires
            i < self@.len(),
        ensures
            r.0@ == self@[i as int].0,
            r.1 as int == self@[i as int].1,
    {
        (&self.pairs[i].0, self.pairs[i].1)
    }

    /// The count recorded for a token.
    pub fn get(&self, key: &str) -> (r: Option<usize>)
        requires
            keys_distinct(self@),
        ensures
            match r {
                Some(c) => count_of(self@, key@) == Some(c as int),
                None => count_of(self@, key@) is None,
            },
    {
        let keystr = String::from_str(key);
        let n = self.pairs.len();
        let mut i: usize = 0;
        while i < n
            invariant
                i <= n,
                n == self@.len(),
                keystr@ == key@,
                keys_distinct(self@),
                forall|k: int| 0 <= k < i ==> (#[trigger] self@[k]).0 != key@,
            decreases n - i,
        {
            if self.pairs[i].0 == keystr {
                proof {
                    assert(self@[i as int].0 == key@);
                    assert(has_key(self@, key@));
                    let j = key_index(self@, key@);
                    assert(0 <= j < self@.len() && self@[j].0 == key@);
                    if j < i as int {
                        assert(self@[j].0 != self@[i as int].0);
                    } else if j > i as int {
                        assert(self@[i as int].0 != self@[j].0);
                    }
                    assert(count_of(self@, key@) == Some(self@[i as int].1));
                }
                return Some(self.pairs[i].1);
            }
            proof {
                assert(self@[i as int].0 != key@);
            }
            i = i + 1;
        }
        proof {
            assert(!has_key(self@, key@));
        }
        None
    }

    /// Records one more occurrence of the token.
    fn add_token(&mut self, token: String)
        requires
            keys_distinct(old(self)@),
            forall|i: int| 0 <= i < old(self)@.len() ==> (#[trigger] old(self)@[i]).1 < usize::MAX,
        ensures
            final(self)@ == bump(old(self)@, token@),
            keys_distinct(final(self)@),
    {
        let n = self.pairs.len();
        let mut i: usize = 0;
        while i < n
            invariant
                i <= n,
                n == self@.len(),
                *self == *old(self),
                keys_distinct(self@),
                forall|k: int| 0 <= k < self@.len() ==> (#[trigger] self@[k]).1 < usize::MAX,
                forall|k: int| 0 <= k < i ==> (#[trigger] self@[k]).0 != token@,
            decreases n - i,
        {
            if self.pairs[i].0 == token {
                proof {
                    assert(self@[i as int].0 == token@);
                    assert(has_key(self@, token@));
                    let j = key_index(self@, token@);
                    assert(0 <= j < self@.len() && self@[j].0 == token@);
                    if j < i as int {
                        assert(self@[j].0 != self@[i as int].0);
                    } else if j > i as int {
                        assert(self@[i as int].0 != self@[j].0);
                    }
                    assert(key_index(self@, token@) == i as int);
                    assert(old(self)@[i as int].1 < usize::MAX);
                }
                let c = self.pairs[i].1;
                self.pairs.set(i, (token, c + 1));
                proof {
                    assert(self@ =~= bump(old(self)@, token@));
                }
                return ;
            }
            proof {
                assert(self@[i as int].0 != token@);
            }
            i = i + 1;
        }
        proof {
            assert(!has_key(self@, token@));
        }
        self.pairs.push((token, 1));
        proof {
            assert(self@ =~= bump(old(self)@, token@));
        }
    }
}

/// The skill-frequency mapping of a group of entries: every line whose text
/// holds the full-width delimiter contributes one occurrence of its token.
pub fn extract_skills_for_logs(logs: &Vec<Log>) -> (r: SkillCounts)
    requires
        total_lines(logs.deep_view()) <= usize::MAX,
    ensures
        r@ == skill_counts_of(logs.deep_view()),
        keys_distinct(r@),
{
    let ghost logsv = logs.deep_view();
    let mut cur = SkillCounts::new();
    let ghost total = total_lines(logsv);
    let ghost done: int = 0;
    let mut i: usize = 0;
    proof {
        assert(logsv.skip(0) =~= logsv);
    }
    while i < logs.len()
        invariant
            i <= logs@.len(),
            logs@.len() == logsv.len(),
            logsv == logs.deep_view(),
            total == total_lines(logsv),
            total <= usize::MAX,
            keys_distinct(cur@),
            skill_counts_of(logsv) == counts_after_logs(cur@, logsv.skip(i as int)),
            done >= 0,
            done + total_lines(logsv.skip(i as int)) == total,
            forall|k: int| 0 <= k < cur@.len() ==> 1 <= (#[trigger] cur@[k]).1 <= done,
        decreases logs@.len() - i,
    {
        proof {
            assert(logsv[i as int] == logs@[i as int]@);
            assert(logsv.skip(i as int).first() == logsv[i as int]);
            assert(logsv.skip(i as int).drop_first() =~= logsv.skip(i + 1 as int));
            lemma_total_lines_nonneg(logsv.skip(i + 1 as int));
        }
        let texts = &logs[i].texts;
        let ghost ts = logsv[i as int].texts;
        proof {
            assert(ts.skip(0) =~= ts);
            assert(counts_after_logs(counts_after_lines(cur@, ts), logsv.skip(i + 1 as int))
                == skill_counts_of(logsv));
        }
        let mut j: usize = 0;
        while j < texts.len()
            invariant
                j <= texts@.len(),
                texts@.len() == ts.len(),
                ts == texts.deep_view(),
                total == total_lines(logsv),
                total <= usize::MAX,
                keys_distinct(cur@),
                counts_after_logs(counts_after_lines(cur@, ts.skip(j as int)), logsv.skip(
                    i + 1 as int,
                )) == skill_counts_of(logsv),
                done >= 0,
                done + (ts.len() - j) + total_lines(logsv.skip(i + 1 as int)) == total,
                total_lines(logsv.skip(i + 1 as int)) >= 0,
                forall|k: int| 0 <= k < cur@.len() ==> 1 <= (#[trigger] cur@[k]).1 <= done,
            decreases texts@.len() - j,
        {
            proof {
                assert(ts[j as int] == texts@[j as int]@);
                assert(ts.skip(j as int).first() == ts[j as int]);
                assert(ts.skip(j as int).drop_first() =~= ts.skip(j + 1 as int));
            }
            match extract_skills_from_log_text(texts[j].as_str()) {
                Some(token) => {
                    cur.add_token(token);
                },
                None => {},
            }
            proof {
                done = done + 1;
            }
            j = j + 1;
        }
        proof {
            assert(ts.skip(ts.len() as int) =~= Seq::<Seq<char>>::empty());
        }
        i = i + 1;
    }
    proof {
        assert(logsv.skip(logsv.len() as int) =~= Seq::<LogView>::empty());
    }
    cur
}

proof fn lemma_filter_all_true(s: Seq<LogView>, p: spec_fn(LogView) -> bool)
    requires
        forall|i: int| 0 <= i < s.len() ==> p(#[trigger] s[i]),
    ensures
        s.filter(p) == s,
    decreases s.len(),
{
    reveal(Seq::filter);
    if s.len() > 0 {
        assert(forall|i: int| 0 <= i < s.drop_last().len() ==> p(#[trigger] s.drop_last()[i]));
        lemma_filter_all_true(s.drop_last(), p);
        assert(s.filter(p) =~= s);
    }
}

/// One category's bucket, classified again by the same rule, is unchanged.
pub proof fn lemma_bucket_idempotent(c: UserChoice, logs: Seq<LogView>)
    ensures
        bucket_spec(c, bucket_spec(c, logs)) == bucket_spec(c, logs),
{
    broadcast use Seq::lemma_filter_pred;

    let p = |l: LogView| log_matches(c, l);
    assert(forall|i: int| 0 <= i < logs.filter(p).len() ==> p(#[trigger] logs.filter(p)[i]));
    lemma_filter_all_true(logs.filter(p), p);
}

/// Classification is idempotent: reclassifying a bucket of the summary by
/// its own category yields that bucket again.
pub proof fn lemma_classify_idempotent(logs: Seq<LogView>)
    ensures
        classify_spec(classify_spec(logs).successes).successes == classify_spec(logs).successes,
        classify_spec(classify_spec(logs).failures).failures == classify_spec(logs).failures,
        classify_spec(classify_spec(logs).criticals).criticals == classify_spec(logs).criticals,
        classify_spec(classify_spec(logs).fumbles).fumbles == classify_spec(logs).fumbles,
{
    lemma_bucket_idempotent(UserChoice::Success, logs);
    lemma_bucket_idempotent(UserChoice::Failure, logs);
    lemma_bucket_idempotent(UserChoice::Critical, logs);
    lemma_bucket_idempotent(UserChoice::Fumble, logs);
}

/// The decisive-success marker textually contains the plain success marker:
/// this is why the plain-success rule must exclude it.
pub proof fn lemma_critical_contains_success(t: Seq<char>)
    requires
        contains_sub(t, critical_marker()),
    ensures
        contains_sub(t, success_marker()),
{
    let i = choose|i: int|
        0 <= i && i + critical_marker().len() <= t.len() && #[trigger] t.subrange(
            i,
            i + critical_marker().len(),
        ) == critical_marker();
    assert(t.subrange(i, i + critical_marker().len())[3] == t[i + 3]);
    assert(t.subrange(i, i + critical_marker().len())[4] == t[i + 4]);
    assert(t.subrange(i + 3, i + 3 + success_marker().len()) =~= success_marker());
}

/// The fatal-failure marker textually contains the plain failure marker:
/// this is why the plain-failure rule must exclude it.
pub proof fn lemma_fumble_contains_failure(t: Seq<char>)
    requires
        contains_sub(t, fumble_marker()),
    ensures
        contains_sub(t, failure_marker()),
{
    let i = choose|i: int|
        0 <= i && i + fumble_marker().len() <= t.len() && #[trigger] t.subrange(
            i,
            i + fumble_marker().len(),
        ) == fumble_marker();
    assert(t.subrange(i, i + fumble_marker().len())[3] == t[i + 3]);
    assert(t.subrange(i, i + fumble_marker().len())[4] == t[i + 4]);
    assert(t.subrange(i + 3, i + 3 + failure_marker().len()) =~= failure_marker());
}

/// Compound-marker precedence: an entry whose single line holds both the
/// success and the decisive-success markers is excluded from the success
/// bucket and included in the critical bucket.
pub proof fn lemma_compound_marker_precedence(lv: LogView)
    requires
        lv.texts.len() == 1,
        contains_sub(lv.texts[0], success_marker()),
        contains_sub(lv.texts[0], critical_marker()),
    ensures
        !log_matches(UserChoice::Success, lv),
        log_matches(UserChoice::Critical, lv),
{
    assert(line_matches(UserChoice::Critical, lv.texts[0]));
}

/// A line without the delimiter contributes nothing to the counts.
pub proof fn lemma_no_delim_line_adds_nothing(acc: Seq<(Seq<char>, int)>, line: Seq<char>)
    requires
        forall|i: int| 0 <= i < line.len() ==> line[i] != crate::text::skill_delim(),
    ensures
        counts_after_lines(acc, seq![line]) == acc,
{
    assert(!crate::text::has_delim(line));
    assert(token_of(line) is None);
    assert(seq![line].first() == line);
    assert(seq![line].drop_first() =~= Seq::<Seq<char>>::empty());
    assert(counts_after_lines(acc, seq![line]) == counts_after_lines(
        acc,
        Seq::<Seq<char>>::empty(),
    ));
}

/// Two entries whose single lines carry the same token accumulate to a
/// single pair with count two.
pub proof fn lemma_two_entries_same_token(l1: LogView, l2: LogView, t: Seq<char>)
    requires
        l1.texts.len() == 1,
        token_of(l1.texts[0]) == Some(t),
        l2.texts.len() == 1,
        token_of(l2.texts[0]) == Some(t),
    ensures
        skill_counts_of(seq![l1, l2]) == seq![(t, 2int)],
{
    let e = Seq::<(Seq<char>, int)>::empty();
    let one = bump(e, t);
    assert(!has_key(e, t));
    assert(one =~= seq![(t, 1int)]);
    assert(l1.texts.drop_first() =~= Seq::<Seq<char>>::empty());
    assert(l1.texts.first() == l1.texts[0]);
    assert(counts_after_lines(e, l1.texts) == counts_after_lines(one, l1.texts.drop_first()));
    assert(counts_after_lines(one, Seq::<Seq<char>>::empty()) == one);
    assert(counts_after_lines(e, l1.texts) == one);
    let two = bump(one, t);
    assert(one[0].0 == t);
    assert(has_key(one, t));
    assert(key_index(one, t) == 0);
    assert(two =~= seq![(t, 2int)]);
    assert(l2.texts.drop_first() =~= Seq::<Seq<char>>::empty());
    assert(l2.texts.first() == l2.texts[0]);
    assert(counts_after_lines(one, l2.texts) == counts_after_lines(two, l2.texts.drop_first()));
    assert(counts_after_lines(two, Seq::<Seq<char>>::empty()) == two);
    assert(counts_after_lines(one, l2.texts) == two);
    let pair = seq![l1, l2];
    assert(pair.drop_first() =~= seq![l2]);
    assert(pair.first() == l1);
    assert(seq![l2].drop_first() =~= Seq::<LogView>::empty());
    assert(seq![l2].first() == l2);
    assert(counts_after_logs(e, pair) == counts_after_logs(one, pair.drop_first()));
    assert(counts_after_logs(one, seq![l2]) == counts_after_logs(two, seq![l2].drop_first()));
    assert(counts_after_logs(two, Seq::<LogView>::empty()) == two);
    assert(skill_counts_of(pair) == two);
}

/// The label a category carries in the summary's count lines and in the
/// count-view detail line.
pub open spec fn count_label(c: UserChoice) -> Seq<char> {
    match c {
        UserChoice::Success => "通常成功"@,
        UserChoice::Failure => "通常失敗"@,
        UserChoice::Critical => "クリティカル"@,
        UserChoice::Fumble => "ファンブル"@,
    }
}

/// The short label a category carries in the dedicated skill listing.
pub open spec fn display_label(c: UserChoice) -> Seq<char> {
    match c {
        UserChoice::Success => "成功"@,
        UserChoice::Failure => "失敗"@,
        UserChoice::Critical => "クリティカル"@,
        UserChoice::Fumble => "ファンブル"@,
    }
}

/// The category a numeric selector denotes: `0` success, `1` failure,
/// `2` critical, `3` fumble, anything else nothing.
pub open spec fn choice_from_index(index: usize) -> Option<UserChoice> {
    if index == 0 {
        Some(UserChoice::Success)
    } else if index == 1 {
        Some(UserChoice::Failure)
    } else if index == 2 {
        Some(UserChoice::Critical)
    } else if index == 3 {
        Some(UserChoice::Fumble)
    } else {
        None
    }
}

impl UserChoice {
    /// The short label of this category.
    pub fn to_display_string(&self) -> (r: &'static str)
        ensures
            r@ == display_label(*self),
    {
        match self {
            UserChoice::Success => "成功",
            UserChoice::Failure => "失敗",
            UserChoice::Critical => "クリティカル",
            UserChoice::Fumble => "ファンブル",
        }
    }

    /// The category a numeric selector denotes, if any.
    pub fn from_index(index: usize) -> (r: Option<UserChoice>)
        ensures
            r == choice_from_index(index),
    {
        match index {
            0 => Some(UserChoice::Success),
            1 => Some(UserChoice::Failure),
            2 => Some(UserChoice::Critical),
            3 => Some(UserChoice::Fumble),
            _ => None,
        }
    }
}

/// The bucket of one category in a summary.
pub open spec fn bucket_of(sv: SummaryView, c: UserChoice) -> Seq<LogView> {
    match c {
        UserChoice::Success => sv.successes,
        UserChoice::Failure => sv.failures,
        UserChoice::Critical => sv.criticals,
        UserChoice::Fumble => sv.fumbles,
    }
}

/// The four count lines of a summary, in fixed label order.
pub open spec fn counts_text(sv: SummaryView) -> Seq<char> {
    "通常成功："@ + dec_str(sv.successes.len() as int) + "\n"@ + "通常失敗："@ + dec_str(
        sv.failures.len() as int,
    ) + "\n"@ + "クリティカル："@ + dec_str(sv.criticals.len() as int) + "\n"@ + "ファンブル："@
        + dec_str(sv.fumbles.len() as int) + "\n"@
}

/// One token and its count, rendered for the count-view detail line.
pub open spec fn render_pair(p: (Seq<char>, int)) -> Seq<char> {
    p.0 + "（"@ + dec_str(p.1) + "回）"@
}

/// One token and its count, rendered for the sorted skill listing.
pub open spec fn render_pair_marked(p: (Seq<char>, int)) -> Seq<char> {
    "《"@ + p.0 + "》（"@ + dec_str(p.1) + "回）"@
}

/// The detail line of one category: a fixed no-skills line, or the rendered
/// pairs in first-occurrence order.
pub open spec fn skills_detail_text(c: UserChoice, bucket: Seq<LogView>) -> Seq<char> {
    let pairs = skill_counts_of(bucket);
    if pairs.len() == 0 {
        count_label(c) + "した技能: "@ + "なし"@ + "\n"@
    } else {
        count_label(c) + "した技能: "@ + join_sep(
            pairs.map_values(|p: (Seq<char>, int)| render_pair(p)),
            ", "@,
        ) + "\n"@
    }
}

/// The whole count view: the four count lines, then, when the selector names
/// a category, its detail line; an out-of-range selector adds nothing.
pub open spec fn format_with_skills_spec(sv: SummaryView, chosen: Option<usize>) -> Seq<char> {
    match chosen {
        Some(index) => match choice_from_index(index) {
            Some(c) => counts_text(sv) + skills_detail_text(c, bucket_of(sv, c)),
            None => counts_text(sv),
        },
        None => counts_text(sv),
    }
}

/// The dedicated skill listing of one category: its tokens rendered in
/// `《…》（…回）` form and joined in lexicographic order, or a fixed
/// no-skills line.
pub open spec fn chosen_skills_text(c: UserChoice, bucket: Seq<LogView>) -> Seq<char> {
    let pairs = skill_counts_of(bucket);
    if pairs.len() == 0 {
        "  "@ + display_label(c) + "した技能: "@ + "なし"@
    } else {
        "  "@ + display_label(c) + "した技能: "@ + join_sep(
            sort_lex(pairs.map_values(|p: (Seq<char>, int)| render_pair_marked(p))),
            ", "@,
        )
    }
}

/// The dedicated skill listing for a numeric selector: empty when the
/// selector is out of range.
pub open spec fn format_chosen_spec(sv: SummaryView, index: usize) -> Seq<char> {
    match choice_from_index(index) {
        Some(c) => chosen_skills_text(c, bucket_of(sv, c)),
        None => Seq::<char>::empty(),
    }
}

/// One entry rendered for the raw listing: its tab, name and numbered lines.
pub open spec fn log_text(lv: LogView) -> Seq<char> {
    "tab:"@ + lv.tab + "\n"@ + "name:"@ + lv.name + "\n"@ + lines_text(lv.texts)
}

/// The numbered lines of one entry.
pub open spec fn lines_text(ts: Seq<Seq<char>>) -> Seq<char>
    decreases ts.len(),
{
    if ts.len() == 0 {
        Seq::<char>::empty()
    } else {
        lines_text(ts.drop_last()) + dec_str(ts.len() - 1) + ":"@ + ts.last() + "\n"@
    }
}

/// A group of entries rendered one after the other.
pub open spec fn logs_text(logs: Seq<LogView>) -> Seq<char>
    decreases logs.len(),
{
    if logs.len() == 0 {
        Seq::<char>::empty()
    } else {
        logs_text(logs.drop_last()) + log_text(logs.last())
    }
}

/// The raw listing of a whole summary: each bucket under its banner.
pub open spec fn print_log_spec(sv: SummaryView) -> Seq<char> {
    "----- 通常成功 -----\n"@ + logs_text(sv.successes) + "----- 通常失敗 -----\n"@ + logs_text(
        sv.failures,
    ) + "----- クリティカル -----\n"@ + logs_text(sv.criticals) + "----- ファンブル -----\n"@
        + logs_text(sv.fumbles)
}

/// Appends one entry's raw listing.
fn append_log(out: &mut String, log: &Log)
    ensures
        final(out)@ == old(out)@ + log_text(log@),
{
    out.append("tab:");
    out.append(log.tab.as_str());
    out.append("\n");
    out.append("name:");
    out.append(log.name.as_str());
    out.append("\n");
    let ghost head = old(out)@ + "tab:"@ + log@.tab + "\n"@ + "name:"@ + log@.name + "\n"@;
    proof {
        assert(out@ =~= head);
        assert(lines_text(log@.texts.subrange(0, 0)) =~= Seq::<char>::empty());
        assert(out@ =~= head + lines_text(log@.texts.subrange(0, 0)));
    }
    let n = log.texts.len();
    let mut j: usize = 0;
    while j < n
        invariant
            j <= n,
            n == log.texts@.len(),
            n == log@.texts.len(),
            log@.texts == log.texts.deep_view(),
            out@ == head + lines_text(log@.texts.subrange(0, j as int)),
        decreases n - j,
    {
        push_decimal(out, j);
        out.append(":");
        out.append(log.texts[j].as_str());
        out.append("\n");
        proof {
            let ts = log@.texts;
            let ext = ts.subrange(0, j + 1 as int);
            assert(ext.drop_last() =~= ts.subrange(0, j as int));
            assert(ext.last() == ts[j as int]);
            assert(ts[j as int] == log.texts@[j as int]@);
            assert(out@ =~= head + lines_text(ext));
        }
        j = j + 1;
    }
    proof {
        assert(log@.texts.subrange(0, log@.texts.len() as int) =~= log@.texts);
        assert(out@ =~= old(out)@ + log_text(log@));
    }
}

/// Appends the raw listing of a group of entries.
fn append_logs(out: &mut String, logs: &Vec<Log>)
    ensures
        final(out)@ == old(out)@ + logs_text(logs.deep_view()),
{
    let ghost dv = logs.deep_view();
    let mut i: usize = 0;
    proof {
        assert(logs_text(dv.subrange(0, 0)) =~= Seq::<char>::empty());
        assert(out@ =~= old(out)@ + logs_text(dv.subrange(0, 0)));
    }
    while i < logs.len()
        invariant
            i <= logs@.len(),
            logs@.len() == dv.len(),
            dv == logs.deep_view(),
            out@ == old(out)@ + logs_text(dv.subrange(0, i as int)),
        decreases logs@.len() - i,
    {
        append_log(out, &logs[i]);
        proof {
            let ext = dv.subrange(0, i + 1 as int);
            assert(ext.drop_last() =~= dv.subrange(0, i as int));
            assert(ext.last() == dv[i as int]);
            assert(dv[i as int] == logs@[i as int]@);
            assert(out@ =~= old(out)@ + logs_text(ext));
        }
        i = i + 1;
    }
    proof {
        assert(dv.subrange(0, dv.len() as int) =~= dv);
    }
}

/// The rendered pairs of a skill mapping, in stored order; `marked` selects
/// the `《…》` form used by the sorted listing.
fn render_pairs(counts: &SkillCounts, marked: bool) -> (r: Vec<String>)
    ensures
        marked ==> r.deep_view() == counts@.map_values(
            |p: (Seq<char>, int)| render_pair_marked(p),
        ),
        !marked ==> r.deep_view() == counts@.map_values(|p: (Seq<char>, int)| render_pair(p)),
{
    let ghost fm = |p: (Seq<char>, int)| render_pair_marked(p);
    let ghost fp = |p: (Seq<char>, int)| render_pair(p);
    let mut r: Vec<String> = Vec::new();
    let n = counts.len();
    let mut i: usize = 0;
    proof {
        assert(r.deep_view() =~= counts@.subrange(0, 0).map_values(fm));
        assert(r.deep_view() =~= counts@.subrange(0, 0).map_values(fp));
    }
    while i < n
        invariant
            i <= n,
            n == counts@.len(),
            marked ==> r.deep_view() == counts@.subrange(0, i as int).map_values(fm),
            !marked ==> r.deep_view() == counts@.subrange(0, i as int).map_values(fp),
            fm == (|p: (Seq<char>, int)| render_pair_marked(p)),
            fp == (|p: (Seq<char>, int)| render_pair(p)),
        decreases n - i,
    {
        let ghost prev = r.deep_view();
        let (token, count) = counts.pair_at(i);
        let mut s = String::new();
        if marked {
            s.append("《");
            s.append(token.as_str());
            s.append("》（");
            push_decimal(&mut s, count);
            s.append("回）");
            proof {
                assert(s@ =~= render_pair_marked(counts@[i as int]));
            }
        } else {
            s.append(token.as_str());
            s.append("（");
            push_decimal(&mut s, count);
            s.append("回）");
            proof {
                assert(s@ =~= render_pair(counts@[i as int]));
            }
        }
        r.push(s);
        proof {
            let ext = counts@.subrange(0, i + 1 as int);
            assert(ext.drop_last() =~= counts@.subrange(0, i as int));
            assert(ext.last() == counts@[i as int]);
            if marked {
                assert(r.deep_view() =~= prev.push(fm(counts@[i as int])));
                assert(prev.push(fm(counts@[i as int])) =~= ext.map_values(fm));
            } else {
                assert(r.deep_view() =~= prev.push(fp(counts@[i as int])));
                assert(prev.push(fp(counts@[i as int])) =~= ext.map_values(fp));
            }
        }
        i = i + 1;
    }
    proof {
        assert(counts@.subrange(0, counts@.len() as int) =~= counts@);
    }
    r
}

impl DeepView for LogSummary {
    type V = SummaryView;

    open spec fn deep_view(&self) -> SummaryView {
        self.view()
    }
}

impl LogSummary {
    /// Classifies the entries: each bucket keeps, in order, the entries whose
    /// lines match its category's keyword rule.
    pub fn new(logs: &Vec<Log>) -> (r: LogSummary)
        ensures
            r@ == classify_spec(logs.deep_view()),
    {
        let r = LogSummary {
            successes: filter_matching(UserChoice::Success, logs),
            failures: filter_matching(UserChoice::Failure, logs),
            criticals: filter_matching(UserChoice::Critical, logs),
            fumbles: filter_matching(UserChoice::Fumble, logs),
        };
        proof {
            assert(r@ =~= classify_spec(logs.deep_view()));
        }
        r
    }

    /// The bucket a category selects.
    fn bucket(&self, c: UserChoice) -> (r: &Vec<Log>)
        ensures
            r.deep_view() == bucket_of(self@, c),
    {
        match c {
            UserChoice::Success => &self.successes,
            UserChoice::Failure => &self.failures,
            UserChoice::Critical => &self.criticals,
            UserChoice::Fumble => &self.fumbles,
        }
    }

    /// The raw listing of every bucket under its banner.
    pub fn print_log(&self) -> (r: String)
        ensures
            r@ == print_log_spec(self@),
    {
        let mut s = String::new();
        s.append("----- 通常成功 -----\n");
        append_logs(&mut s, &self.successes);
        s.append("----- 通常失敗 -----\n");
        append_logs(&mut s, &self.failures);
        s.append("----- クリティカル -----\n");
        append_logs(&mut s, &self.criticals);
        s.append("----- ファンブル -----\n");
        append_logs(&mut s, &self.fumbles);
        proof {
            assert(s@ =~= print_log_spec(self@));
        }
        s
    }

    /// The four count lines, and, when `chosen_result_index` names a
    /// category, that category's skills in first-occurrence order; an
    /// out-of-range selector leaves the counts unchanged.
    pub fn format_with_skills(&self, chosen_result_index: Option<usize>) -> (r: String)
        requires
            match chosen_result_index {
                Some(index) => match choice_from_index(index) {
                    Some(c) => total_lines(bucket_of(self@, c)) <= usize::MAX,
                    None => true,
                },
                None => true,
            },
        ensures
            r@ == format_with_skills_spec(self@, chosen_result_index),
    {
        let mut s = String::new();
        s.append("通常成功：");
        push_decimal(&mut s, self.successes.len());
        s.append("\n");
        s.append("通常失敗：");
        push_decimal(&mut s, self.failures.len());
        s.append("\n");
        s.append("クリティカル：");
        push_decimal(&mut s, self.criticals.len());
        s.append("\n");
        s.append("ファンブル：");
        push_decimal(&mut s, self.fumbles.len());
        s.append("\n");
        proof {
            assert(s@ =~= counts_text(self@));
        }
        let index = match chosen_result_index {
            Some(index) => index,
            None => {
                return s;
            },
        };
        let c = match UserChoice::from_index(index) {
            Some(c) => c,
            None => {
                return s;
            },
        };
        let logs_to_process = self.bucket(c);
        let skills_map = extract_skills_for_logs(logs_to_process);
        let label: &str = match c {
            UserChoice::Success => "通常成功",
            UserChoice::Failure => "通常失敗",
            UserChoice::Critical => "クリティカル",
            UserChoice::Fumble => "ファンブル",
        };
        proof {
            assert(label@ == count_label(c));
        }
        s.append(label);
        s.append("した技能: ");
        if skills_map.len() == 0 {
            s.append("なし");
            s.append("\n");
            proof {
                assert(s@ =~= format_with_skills_spec(self@, chosen_result_index));
            }
        } else {
            let rendered = render_pairs(&skills_map, false);
            let joined = join_strings(&rendered, ", ");
            s.append(joined.as_str());
            s.append("\n");
            proof {
                assert(s@ =~= format_with_skills_spec(self@, chosen_result_index));
            }
        }
        s
    }

    /// The dedicated skill listing of the selected category, tokens sorted
    /// lexicographically; the empty string when the selector is out of range.
    pub fn format_chosen_skills_only(&self, chosen_result_index: usize) -> (r: String)
        requires
            match choice_from_index(chosen_result_index) {
                Some(c) => total_lines(bucket_of(self@, c)) <= usize::MAX,
                None => true,
            },
        ensures
            r@ == format_chosen_spec(self@, chosen_result_index),
    {
        let user_choice = match UserChoice::from_index(chosen_result_index) {
            Some(choice) => choice,
            None => {
                let empty = String::new();
                proof {
                    assert(empty@ =~= format_chosen_spec(self@, chosen_result_index));
                }
                return empty;
            },
        };
        let logs_to_process = self.bucket(user_choice);
        let skills_map = extract_skills_for_logs(logs_to_process);
        let mut s = String::new();
        s.append("  ");
        s.append(user_choice.to_display_string());
        s.append("した技能: ");
        if skills_map.len() == 0 {
            s.append("なし");
            proof {
                assert(s@ =~= format_chosen_spec(self@, chosen_result_index));
            }
        } else {
            let rendered = render_pairs(&skills_map, true);
            let sorted = sort_strings(&rendered);
            let joined = join_strings(&sorted, ", ");
            s.append(joined.as_str());
            proof {
                assert(s@ =~= format_chosen_spec(self@, chosen_result_index));
            }
        }
        s
    }
}

} // verus!
