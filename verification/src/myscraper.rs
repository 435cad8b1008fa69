//! The fetch-and-diff engine.  Each target names a page and a piece of
//! text; the text fragments of a fetched page body are matched against the
//! target's text, diffed against the fragments cached under the target's
//! key on the previous successful run, reported through a `Sender`, and
//! written back to the cache.  Fetch outcomes arrive one at a time, in
//! arrival order, from whoever performs the fetches.

use crate::db::Db;
use crate::db::DbError;
use crate::metrics::metrics_line;
use crate::metrics::Metrics;
use crate::text::dec_str;
use crate::text::fresh_fragments;
use crate::text::join_lines;
use crate::text::join_with_newlines;
use crate::text::matches_of;
use crate::text::matching_fragments;
use crate::text::new_of;
use crate::text::split_into_lines;
use crate::text::split_lines;
use crate::text::u64_to_dec;
use std::io::Write;
use vstd::prelude::*;
use vstd::string::StringExecFns;

verus! {

/// A page to watch and what to look for in it.
#[derive(Debug, Clone, PartialEq)]
pub struct Target {
    /// The uri the scraper should scrape.
    pub uri: String,
    /// The text to search in the html content of `uri`.
    pub text: String,
    /// Description of what the target is, only for humans.
    pub description: String,
}

impl Default for Target {
    /// A target with every field empty.
    fn default() -> (r: Target)
        ensures
            r.uri@ == Seq::<char>::empty(),
            r.text@ == Seq::<char>::empty(),
            r.description@ == Seq::<char>::empty(),
    {
        Target { uri: String::new(), text: String::new(), description: String::new() }
    }
}

/// Sender sends messages to the given addr.  Implementations may email,
/// log or print matches; none may stall the caller indefinitely.
pub trait Sender {
    fn send(&self, addr: &str, target: &Target, msg: String);
}

/// The line a `PrintSender` prints for one message.
pub open spec fn sender_line(addr: Seq<char>, uri: Seq<char>, msg: Seq<char>) -> Seq<char> {
    "[to "@ + addr + "] Target "@ + uri + ". msg: \n "@ + msg
}

/// Renders the line a `PrintSender` prints for one message.
pub fn format_sender_line(addr: &str, target: &Target, msg: &str) -> (r: String)
    ensures
        r@ == sender_line(addr@, target.uri@, msg@),
{
    let mut s = "[to ".to_owned();
    s.append(addr);
    s.append("] Target ");
    s.append(target.uri.as_str());
    s.append(". msg: \n ");
    s.append(msg);
    s
}

/// The message sent for one newly seen fragment.
pub open spec fn match_message(frag: Seq<char>) -> Seq<char> {
    "Found match: "@ + frag
}

/// Renders the message sent for one newly seen fragment.
pub fn format_match_message(frag: &str) -> (r: String)
    ensures
        r@ == match_message(frag@),
{
    let mut s = "Found match: ".to_owned();
    s.append(frag);
    s
}

/// Relies on std::io::Stdout (through writeln) to put the line on
/// standard output.
#[verifier::external_body]
fn print_line(s: &str) {
    let _ = writeln!(std::io::stdout(), "{}", s);
}

/// Sender implementation that just prints the message to stdout.
pub struct PrintSender {}

impl Sender for PrintSender {
    fn send(&self, addr: &str, t: &Target, msg: String) {
        let line = format_sender_line(addr, t, msg.as_str());
        print_line(line.as_str());
    }
}

/// Outcome of one fetch, as handed to the aggregation step: the decoded
/// body on success, else the best available status string ("OK" never
/// appears here; a failure carries an HTTP status code in decimal, or
/// "unknown" when none was available).  `classify_fetch` builds one from
/// what came over the wire.
pub enum FetchOutcome {
    /// A 2xx response whose body decoded as text.
    Success(String),
    /// Any failure at fetching or decoding, with its status string.
    Failure(String),
}

/// Classifies one fetch: a success needs a 2xx status and a body that
/// decoded as text; anything else is a failure carrying the status code
/// in decimal, or "unknown" when no response arrived at all.
pub fn classify_fetch(status: Option<u16>, body: Option<String>) -> (r: FetchOutcome)
    ensures
        ({
            match status {
                Some(code) => if 200 <= code <= 299 {
                    match body {
                        Some(b) => r == FetchOutcome::Success(b),
                        None => r matches FetchOutcome::Failure(s) && s@ == dec_str(code as nat),
                    }
                } else {
                    r matches FetchOutcome::Failure(s) && s@ == dec_str(code as nat)
                },
                None => r matches FetchOutcome::Failure(s) && s@ == "unknown"@,
            }
        }),
{
    match status {
        Some(code) => {
            let in_2xx = 200 <= code && code <= 299;
            match body {
                Some(b) => if in_2xx {
                    FetchOutcome::Success(b)
                } else {
                    FetchOutcome::Failure(u64_to_dec(code as u64))
                },
                None => FetchOutcome::Failure(u64_to_dec(code as u64)),
            }
        },
        None => FetchOutcome::Failure("unknown".to_owned()),
    }
}

/// The text nodes of an html document, in document order, as the scraping
/// library walks them: every element contributes the text below it, so a
/// node's text recurs once per ancestor.  A function of the body alone.
pub uninterp spec fn text_nodes_of(body: Seq<char>) -> Seq<Seq<char>>;

/// Relies on the scraper crate: `Html::parse_document` (total, with error
/// recovery: an unparseable body yields an empty document), the `*`
/// selector matching every element, and `ElementRef::text` walking the
/// text below an element in document order.  The result depends on the
/// body text alone.
#[verifier::external_body]
fn extract_text_fragments(body: &str) -> (r: Vec<String>)
    ensures
        r.deep_view() == text_nodes_of(body@),
{
    let page = scraper::Html::parse_document(body);
    let selector = scraper::Selector::parse("*").unwrap();
    let mut out = Vec::new();
    for element in page.select(&selector) {
        for t in element.text() {
            out.push(t.to_string());
        }
    }
    out
}

/// The cache identity of a target: uri and text joined by one bare colon.
/// Neither field is checked for colons, so a colon inside one can collide
/// with another target's key; the shape is kept as it is, since stored
/// cache entries live under it.
pub open spec fn cache_key_spec(uri: Seq<char>, text: Seq<char>) -> Seq<char> {
    uri + ":"@ + text
}

/// The fragment list a cache value stands for: its lines, or nothing when
/// no value is stored, which reads the same as an empty value.
pub open spec fn previous_fragments(
    cache: Map<Seq<char>, Seq<char>>,
    key: Seq<char>,
) -> Seq<Seq<char>> {
    if cache.contains_key(key) {
        split_lines(cache[key])
    } else {
        Seq::empty()
    }
}

/// What one successfully fetched body reports for a target: the matching
/// fragments of its text nodes that the cache has not seen under the
/// target's key.
pub open spec fn page_news(
    cache: Map<Seq<char>, Seq<char>>,
    target: Target,
    body: Seq<char>,
) -> Seq<Seq<char>> {
    new_of(
        matches_of(text_nodes_of(body), target.text@),
        previous_fragments(cache, cache_key_spec(target.uri@, target.text@)),
    )
}

/// The fetch-and-diff orchestrator: holds the targets, the sender that
/// reports matches, the metrics log and the per-target fragment cache.
/// The cache is reachable only through this one value, so all diffing and
/// writing is funnelled through a single consumer.
pub struct Scraper<'a, S> {
    /// The targets to scrape.
    targets: Vec<Target>,
    /// Used to send notifications.
    sender: &'a S,
    /// Metrics related to scraping.
    metrics: Metrics,
    /// Cache of `target_id(target)` -> matching results.
    target_cache: Db,
}

impl<'a, S> Scraper<'a, S> where S: Sender {
    /// The cached fragment sets, keyed by target identity.
    pub closed spec fn cache_model(&self) -> Map<Seq<char>, Seq<char>> {
        self.target_cache@
    }

    /// The cache store is exclusively held by this scraper, as the
    /// in-memory constructor guarantees; diffing and writing then follow
    /// the map model exactly.  A file-backed store may be shared, so a
    /// read of it yields some stored text or falls open to "nothing
    /// seen", and its writes are not modelled.
    pub closed spec fn cache_exclusive(&self) -> bool {
        self.target_cache.exclusive()
    }

    /// The metrics records collected so far, in arrival order.
    pub closed spec fn metrics_model(&self) -> Seq<Seq<char>> {
        self.metrics@
    }

    /// The targets of this scraper.
    pub closed spec fn targets_model(&self) -> Seq<Target> {
        self.targets@
    }

    /// A scraper over the given targets whose cache is backed by the
    /// scraper's cache file, keeping what earlier runs stored there.
    pub fn new(targets: Vec<Target>, sender: &'a S) -> (r: Result<Scraper<'a, S>, DbError>)
        ensures
            r matches Ok(s) ==> s.targets_model() == targets@ && s.metrics_model()
                == Seq::<Seq<char>>::empty(),
    {
        let metrics = Metrics::new();
        let target_cache = match Db::new("./.scraper_target_cache.db") {
            Ok(d) => d,
            Err(e) => {
                return Err(e);
            },
        };
        Ok(Scraper { targets, sender, metrics, target_cache })
    }

    /// A scraper over the given targets with a fresh, empty in-memory
    /// cache.
    pub fn new_in_memory(targets: Vec<Target>, sender: &'a S) -> (r: Result<
        Scraper<'a, S>,
        DbError,
    >)
        ensures
            r matches Ok(s) ==> s.targets_model() == targets@ && s.metrics_model()
                == Seq::<Seq<char>>::empty() && s.cache_model() == (Map::<
                Seq<char>,
                Seq<char>,
            >::empty()) && s.cache_exclusive(),
    {
        let metrics = Metrics::new();
        let target_cache = match Db::new_in_memory() {
            Ok(d) => d,
            Err(e) => {
                return Err(e);
            },
        };
        Ok(Scraper { targets, sender, metrics, target_cache })
    }

    /// The cache identity of a target.
    pub fn target_id(target: &Target) -> (r: String)
        ensures
            r@ == cache_key_spec(target.uri@, target.text@),
    {
        let mut s = target.uri.clone();
        s.append(":");
        s.append(target.text.as_str());
        s
    }

    /// The targets of this scraper, in order.
    pub fn targets(&self) -> (r: &Vec<Target>)
        ensures
            r@ == self.targets_model(),
    {
        &self.targets
    }

    /// Checks content for any matches and reports each fragment not seen
    /// on the previous run, one message per fragment, in order of first
    /// appearance; returns the reported fragments.  On an exclusively
    /// held cache the diff is against the cached entry exactly.  A shared
    /// (file-backed) cache yields some previously stored value — or,
    /// after a failed read, falls open to none at all, re-reporting every
    /// current match — so there only the shape of the diff is pinned.
    /// The full current fragment set is written back under the target's
    /// key even when nothing is new; a failed write leaves an exclusively
    /// held cache unchanged and is absorbed.  Metrics and targets are
    /// untouched.
    pub fn handle_page_content(&mut self, body: &str, target: &Target) -> (r: Vec<String>)
        ensures
            ({
                let matches = matches_of(text_nodes_of(body@), target.text@);
                ||| r.deep_view() == page_news(old(self).cache_model(), *target, body@)
                ||| !old(self).cache_exclusive() && (exists|prev: Seq<char>|
                    r.deep_view() == new_of(matches, split_lines(prev)))
            }),
            old(self).cache_exclusive() ==> ({
                let key = cache_key_spec(target.uri@, target.text@);
                let value = join_lines(matches_of(text_nodes_of(body@), target.text@));
                ||| final(self).cache_model() == old(self).cache_model().insert(key, value)
                ||| final(self).cache_model() == old(self).cache_model()
            }),
            final(self).cache_exclusive() == old(self).cache_exclusive(),
            final(self).metrics_model() == old(self).metrics_model(),
            final(self).targets_model() == old(self).targets_model(),
    {
        let fragments = extract_text_fragments(body);
        let cache_id = Self::target_id(target);
        let got = self.target_cache.get(cache_id.as_str());
        let ghost read_hit = got is Some;
        let old_contents = match got {
            Some(v) => v,
            None => String::new(),
        };
        let old_matches = split_into_lines(old_contents.as_str());
        let matches = matching_fragments(&fragments, target.text.as_str());
        let news = fresh_fragments(&matches, &old_matches);
        proof {
            let c0 = old(self).cache_model();
            let key = cache_key_spec(target.uri@, target.text@);
            if old(self).cache_exclusive() {
                if !read_hit {
                    assert(split_lines(Seq::<char>::empty()) =~= Seq::<Seq<char>>::empty());
                    assert(!c0.contains_key(key));
                }
            } else {
                if !read_hit {
                    assert(old_contents@ =~= Seq::<char>::empty());
                }
                assert(news.deep_view() == new_of(matches.deep_view(), split_lines(old_contents@)));
            }
        }
        let cache_value = join_with_newlines(&matches);
        let mut i: usize = 0;
        while i < news.len()
            invariant
                i <= news@.len(),
            decreases news@.len() - i,
        {
            let msg = format_match_message(news[i].as_str());
            self.sender.send("everyone@everyone.com", target, msg);
            i += 1;
        }
        let _ = self.target_cache.put(cache_id.as_str(), cache_value.as_str());
        news
    }

    /// The cached value under a key, read from the store.  On an
    /// exclusively held cache a returned value is exactly what is stored
    /// and `None` means absent; a shared cache returns whatever it holds
    /// at that moment, or `None` for an absent key or a failed read.
    pub fn cache_entry(&self, key: &str) -> (r: Option<String>)
        ensures
            self.cache_exclusive() ==> (r matches Some(v) ==> self.cache_model().contains_key(
                key@,
            ) && v@ == self.cache_model()[key@]),
            self.cache_exclusive() && r is None ==> !self.cache_model().contains_key(key@),
    {
        self.target_cache.get(key)
    }

    /// Overwrites the cached value under a key.  On an exclusively held
    /// cache a success is exactly the upsert and a failure changes
    /// nothing; of a shared one nothing is claimed.
    pub fn put_cache_entry(&mut self, key: &str, value: &str) -> (r: Result<(), DbError>)
        ensures
            old(self).cache_exclusive() && r is Ok ==> final(self).cache_model() == old(
                self,
            ).cache_model().insert(key@, value@),
            old(self).cache_exclusive() && r is Err ==> final(self).cache_model() == old(
                self,
            ).cache_model(),
            final(self).cache_exclusive() == old(self).cache_exclusive(),
            final(self).metrics_model() == old(self).metrics_model(),
            final(self).targets_model() == old(self).targets_model(),
    {
        self.target_cache.put(key, value)
    }

    /// Hands over the metrics records collected so far, in order, leaving
    /// the log empty.
    pub fn drain_metrics(&mut self) -> (r: Vec<String>)
        ensures
            r.deep_view() == old(self).metrics_model(),
            final(self).metrics_model() == Seq::<Seq<char>>::empty(),
            final(self).cache_model() == old(self).cache_model(),
            final(self).targets_model() == old(self).targets_model(),
    {
        self.metrics.drain()
    }

    /// Handles one fetch outcome for a target, as the single aggregation
    /// consumer does: a success is reduced to fragments, diffed, reported
    /// and written back, and counted with status "OK"; a failure only
    /// records its status, reports nothing and leaves the cache alone.
    /// Returns the reported fragments.
    pub fn handle_message(&mut self, target: &Target, outcome: &FetchOutcome) -> (r: Vec<String>)
        ensures
            step_rel(
                old(self).cache_model(),
                final(self).cache_model(),
                old(self).metrics_model(),
                final(self).metrics_model(),
                *target,
                *outcome,
                r.deep_view(),
                old(self).cache_exclusive(),
            ),
            final(self).cache_exclusive() == old(self).cache_exclusive(),
            final(self).targets_model() == old(self).targets_model(),
    {
        match outcome {
            FetchOutcome::Success(body) => {
                let news = self.handle_page_content(body.as_str(), target);
                self.metrics.increment_num_requests(target.uri.as_str(), "OK");
                news
            },
            FetchOutcome::Failure(status) => {
                self.metrics.increment_num_requests(target.uri.as_str(), status.as_str());
                let news: Vec<String> = Vec::new();
                proof {
                    assert(news.deep_view() =~= Seq::<Seq<char>>::empty());
                }
                news
            },
        }
    }

    /// Processes a whole run's fetch outcomes in arrival order, one
    /// aggregation step per outcome, and returns everything reported, in
    /// the order it was reported.
    pub fn process_outcomes(&mut self, outcomes: &Vec<(Target, FetchOutcome)>) -> (r: Vec<String>)
        ensures
            run_rel(
                old(self).cache_model(),
                final(self).cache_model(),
                old(self).metrics_model(),
                final(self).metrics_model(),
                outcomes@,
                r.deep_view(),
                old(self).cache_exclusive(),
            ),
            final(self).cache_exclusive() == old(self).cache_exclusive(),
            final(self).targets_model() == old(self).targets_model(),
    {
        let ghost c_init = self.cache_model();
        let ghost m_init = self.metrics_model();
        let mut reported: Vec<String> = Vec::new();
        let mut i: usize = 0;
        proof {
            assert(outcomes@.subrange(0, 0) =~= Seq::<(Target, FetchOutcome)>::empty());
            assert(reported.deep_view() =~= Seq::<Seq<char>>::empty());
        }
        while i < outcomes.len()
            invariant
                0 <= i <= outcomes@.len(),
                run_rel(
                    c_init,
                    self.cache_model(),
                    m_init,
                    self.metrics_model(),
                    outcomes@.subrange(0, i as int),
                    reported.deep_view(),
                    old(self).cache_exclusive(),
                ),
                self.cache_exclusive() == old(self).cache_exclusive(),
                self.targets_model() == old(self).targets_model(),
                c_init == old(self).cache_model(),
                m_init == old(self).metrics_model(),
            decreases outcomes@.len() - i,
        {
            let ghost c_mid = self.cache_model();
            let ghost m_mid = self.metrics_model();
            let ghost front = reported.deep_view();
            let pair = &outcomes[i];
            let mut news = self.handle_message(&pair.0, &pair.1);
            let ghost last = news.deep_view();
            reported.append(&mut news);
            proof {
                assert(reported.deep_view() =~= front + last);
                lemma_run_rel_snoc(
                    c_init,
                    c_mid,
                    self.cache_model(),
                    m_init,
                    m_mid,
                    self.metrics_model(),
                    outcomes@.subrange(0, i as int),
                    outcomes@[i as int].0,
                    outcomes@[i as int].1,
                    front,
                    last,
                    old(self).cache_exclusive(),
                );
                assert(outcomes@.subrange(0, i as int).push(outcomes@[i as int]) =~= outcomes@
                    .subrange(0, i + 1));
                assert(outcomes@[i as int] == (outcomes@[i as int].0, outcomes@[i as int].1));
            }
            i += 1;
        }
        proof {
            assert(outcomes@.subrange(0, outcomes@.len() as int) =~= outcomes@);
        }
        reported
    }
}

/// One aggregation step, relating the cache and the metrics log before
/// and after one target's outcome to the fragments reported for it.  On
/// success one "OK" record is logged and the reported fragments are the
/// page's news against the cache — or, when the store is not exclusively
/// held, its news against some stored value, which a read that fell open
/// leaves empty; the cache write is modelled (overwritten under the
/// target's key unless the write failed) only for an exclusively held
/// store.  On failure nothing is reported, the cache is untouched and one
/// record carries the status.  Each record is exact up to its timestamp.
pub open spec fn step_rel(
    c0: Map<Seq<char>, Seq<char>>,
    c1: Map<Seq<char>, Seq<char>>,
    m0: Seq<Seq<char>>,
    m1: Seq<Seq<char>>,
    target: Target,
    outcome: FetchOutcome,
    reported: Seq<Seq<char>>,
    exclusive: bool,
) -> bool {
    match outcome {
        FetchOutcome::Success(body) => {
            let matches = matches_of(text_nodes_of(body@), target.text@);
            let key = cache_key_spec(target.uri@, target.text@);
            let value = join_lines(matches);
            &&& (reported == page_news(c0, target, body@) || (!exclusive && exists|prev: Seq<char>|
                reported == new_of(matches, split_lines(prev))))
            &&& exclusive ==> (c1 == c0.insert(key, value) || c1 == c0)
            &&& exists|ts: nat| m1 == m0.push(metrics_line(ts, target.uri@, "OK"@))
        },
        FetchOutcome::Failure(status) => {
            &&& reported == Seq::<Seq<char>>::empty()
            &&& c1 == c0
            &&& exists|ts: nat| m1 == m0.push(metrics_line(ts, target.uri@, status@))
        },
    }
}

/// A whole run over its outcomes in arrival order: one aggregation step
/// per outcome, chained through the intermediate cache and metrics
/// states, with everything reported concatenated in order.
pub open spec fn run_rel(
    c0: Map<Seq<char>, Seq<char>>,
    c1: Map<Seq<char>, Seq<char>>,
    m0: Seq<Seq<char>>,
    m1: Seq<Seq<char>>,
    outcomes: Seq<(Target, FetchOutcome)>,
    reported: Seq<Seq<char>>,
    exclusive: bool,
) -> bool
    decreases outcomes.len(),
{
    if outcomes.len() == 0 {
        c1 == c0 && m1 == m0 && reported == Seq::<Seq<char>>::empty()
    } else {
        exists|cm: Map<Seq<char>, Seq<char>>, mm: Seq<Seq<char>>, front: Seq<Seq<char>>, last: Seq<
            Seq<char>,
        >|
            #![all_triggers]
            {
                &&& run_rel(c0, cm, m0, mm, outcomes.drop_last(), front, exclusive)
                &&& step_rel(cm, c1, mm, m1, outcomes.last().0, outcomes.last().1, last, exclusive)
                &&& reported == front + last
            }
    }
}

/// Chaining one more step onto a run keeps the runs relation.
pub proof fn lemma_run_rel_snoc(
    c0: Map<Seq<char>, Seq<char>>,
    cm: Map<Seq<char>, Seq<char>>,
    c1: Map<Seq<char>, Seq<char>>,
    m0: Seq<Seq<char>>,
    mm: Seq<Seq<char>>,
    m1: Seq<Seq<char>>,
    outcomes: Seq<(Target, FetchOutcome)>,
    t: Target,
    oc: FetchOutcome,
    front: Seq<Seq<char>>,
    last: Seq<Seq<char>>,
    exclusive: bool,
)
    requires
        run_rel(c0, cm, m0, mm, outcomes, front, exclusive),
        step_rel(cm, c1, mm, m1, t, oc, last, exclusive),
    ensures
        run_rel(c0, c1, m0, m1, outcomes.push((t, oc)), front + last, exclusive),
{
    let ext = outcomes.push((t, oc));
    assert(ext.len() == outcomes.len() + 1);
    assert(ext.drop_last() =~= outcomes);
    assert(ext.last().0 == t);
    assert(ext.last().1 == oc);
    assert(run_rel(c0, cm, m0, mm, ext.drop_last(), front, exclusive));
    assert(step_rel(cm, c1, mm, m1, ext.last().0, ext.last().1, last, exclusive));
    assert(run_rel(c0, c1, m0, m1, ext, front + last, exclusive));
}

/// Failure isolation: a failed fetch contributes only its metrics record
/// to a run — the final cache and everything reported stay exactly what
/// they were without it, so one target's failure never suppresses or
/// invents a sibling's news.
pub proof fn lemma_failure_isolated(
    c0: Map<Seq<char>, Seq<char>>,
    c1: Map<Seq<char>, Seq<char>>,
    m0: Seq<Seq<char>>,
    mm: Seq<Seq<char>>,
    m1: Seq<Seq<char>>,
    outcomes: Seq<(Target, FetchOutcome)>,
    t: Target,
    f: FetchOutcome,
    reported: Seq<Seq<char>>,
    exclusive: bool,
)
    requires
        run_rel(c0, c1, m0, mm, outcomes, reported, exclusive),
        f is Failure,
        exists|ts: nat| m1 == mm.push(metrics_line(ts, t.uri@, f->Failure_0@)),
    ensures
        run_rel(c0, c1, m0, m1, outcomes.push((t, f)), reported, exclusive),
{
    assert(step_rel(c1, c1, mm, m1, t, f, Seq::<Seq<char>>::empty(), exclusive));
    lemma_run_rel_snoc(
        c0,
        c1,
        c1,
        m0,
        mm,
        m1,
        outcomes,
        t,
        f,
        reported,
        Seq::<Seq<char>>::empty(),
        exclusive,
    );
    assert(reported + Seq::<Seq<char>>::empty() =~= reported);
}

/// Idempotence of a whole no-op run: on an exclusively held cache that
/// already stores, under the key of every target that fetched
/// successfully, exactly the value its unchanged content yields — as a
/// run whose writes all went through leaves it — a run over those same
/// outcomes, failed fetches included, reports nothing and leaves the
/// cache as it was, however its own writes fare.  Holds for matches
/// without embedded newlines; a target whose earlier write failed, or two
/// targets stomping one key with different content, re-report, the
/// accepted tradeoff.
pub proof fn lemma_quiet_second_run(
    cstar: Map<Seq<char>, Seq<char>>,
    c1: Map<Seq<char>, Seq<char>>,
    m0: Seq<Seq<char>>,
    m1: Seq<Seq<char>>,
    outcomes: Seq<(Target, FetchOutcome)>,
    reported: Seq<Seq<char>>,
)
    requires
        run_rel(cstar, c1, m0, m1, outcomes, reported, true),
        forall|i: int|
            0 <= i < outcomes.len() ==> ((#[trigger] outcomes[i]).1 is Success ==> {
                let t = outcomes[i].0;
                let m = matches_of(text_nodes_of(outcomes[i].1->Success_0@), t.text@);
                let key = cache_key_spec(t.uri@, t.text@);
                &&& cstar.contains_key(key)
                &&& cstar[key] == join_lines(m)
                &&& crate::text::newline_free(m)
            }),
    ensures
        reported == Seq::<Seq<char>>::empty(),
        c1 == cstar,
    decreases outcomes.len(),
{
    if outcomes.len() == 0 {
        assert(reported =~= Seq::<Seq<char>>::empty());
    } else {
        let prefix = outcomes.drop_last();
        let step = outcomes.last();
        assert(outcomes.len() > 0);
        let (cm, mm, front, last) = choose|
            cm: Map<Seq<char>, Seq<char>>,
            mm: Seq<Seq<char>>,
            front: Seq<Seq<char>>,
            last: Seq<Seq<char>>,
        |
            #![all_triggers]
            {
                &&& run_rel(cstar, cm, m0, mm, outcomes.drop_last(), front, true)
                &&& step_rel(cm, c1, mm, m1, outcomes.last().0, outcomes.last().1, last, true)
                &&& reported == front + last
            };
        assert(forall|i: int| 0 <= i < prefix.len() ==> prefix[i] == outcomes[i]);
        lemma_quiet_second_run(cstar, cm, m0, mm, prefix, front);
        assert(outcomes[outcomes.len() - 1] == step);
        if step.1 is Success {
            let t = step.0;
            let body = step.1->Success_0;
            let m = matches_of(text_nodes_of(body@), t.text@);
            let key = cache_key_spec(t.uri@, t.text@);
            assert(cstar.contains_key(key) && cstar[key] == join_lines(m)
                && crate::text::newline_free(m));
            crate::text::lemma_split_join(m);
            assert(previous_fragments(cstar, key) == m);
            assert(forall|i: int| 0 <= i < m.len() ==> m.contains(m[i]));
            crate::text::lemma_new_of_all_old(m, m);
            assert(last == page_news(cstar, t, body@));
            assert(last =~= Seq::<Seq<char>>::empty());
            assert(cstar.insert(key, join_lines(m)) =~= cstar);
        } else {
            assert(last =~= Seq::<Seq<char>>::empty());
            assert(c1 == cstar);
        }
        assert(reported =~= Seq::<Seq<char>>::empty());
    }
}

/// Failure isolation over a whole run: for three targets whose middle
/// fetch failed, exactly the first and the third target's news against
/// the starting cache are reported, in that order — the failed target
/// contributes nothing, and, the two keying distinct cache entries,
/// neither survivor's write disturbs the other's diff.
pub proof fn lemma_three_target_run(
    c0: Map<Seq<char>, Seq<char>>,
    c1: Map<Seq<char>, Seq<char>>,
    m0: Seq<Seq<char>>,
    m1: Seq<Seq<char>>,
    t1: Target,
    b1: String,
    t2: Target,
    st: String,
    t3: Target,
    b3: String,
    reported: Seq<Seq<char>>,
)
    requires
        run_rel(
            c0,
            c1,
            m0,
            m1,
            seq![
                (t1, FetchOutcome::Success(b1)),
                (t2, FetchOutcome::Failure(st)),
                (t3, FetchOutcome::Success(b3)),
            ],
            reported,
            true,
        ),
        cache_key_spec(t1.uri@, t1.text@) != cache_key_spec(t3.uri@, t3.text@),
    ensures
        reported == page_news(c0, t1, b1@) + page_news(c0, t3, b3@),
{
    let o1 = (t1, FetchOutcome::Success(b1));
    let o2 = (t2, FetchOutcome::Failure(st));
    let o3 = (t3, FetchOutcome::Success(b3));
    let all = seq![o1, o2, o3];
    assert(all.len() == 3);
    let (cm2, mm2, front2, last3) = choose|
        cm: Map<Seq<char>, Seq<char>>,
        mm: Seq<Seq<char>>,
        front: Seq<Seq<char>>,
        last: Seq<Seq<char>>,
    |
        #![all_triggers]
        {
            &&& run_rel(c0, cm, m0, mm, all.drop_last(), front, true)
            &&& step_rel(cm, c1, mm, m1, all.last().0, all.last().1, last, true)
            &&& reported == front + last
        };
    assert(all.last() == o3);
    let two = seq![o1, o2];
    assert(all.drop_last() =~= two);
    let (cm1, mm1, front1, last2) = choose|
        cm: Map<Seq<char>, Seq<char>>,
        mm: Seq<Seq<char>>,
        front: Seq<Seq<char>>,
        last: Seq<Seq<char>>,
    |
        #![all_triggers]
        {
            &&& run_rel(c0, cm, m0, mm, two.drop_last(), front, true)
            &&& step_rel(cm, cm2, mm, mm2, two.last().0, two.last().1, last, true)
            &&& front2 == front + last
        };
    assert(two.last() == o2);
    let one = seq![o1];
    assert(two.drop_last() =~= one);
    let (cz, mz, front0, last1) = choose|
        cm: Map<Seq<char>, Seq<char>>,
        mm: Seq<Seq<char>>,
        front: Seq<Seq<char>>,
        last: Seq<Seq<char>>,
    |
        #![all_triggers]
        {
            &&& run_rel(c0, cm, m0, mm, one.drop_last(), front, true)
            &&& step_rel(cm, cm1, mm, mm1, one.last().0, one.last().1, last, true)
            &&& front1 == front + last
        };
    assert(one.last() == o1);
    assert(one.drop_last() =~= Seq::<(Target, FetchOutcome)>::empty());
    assert(cz == c0 && front0 =~= Seq::<Seq<char>>::empty());
    let k1 = cache_key_spec(t1.uri@, t1.text@);
    let v1 = join_lines(matches_of(text_nodes_of(b1@), t1.text@));
    assert(last1 == page_news(c0, t1, b1@));
    assert(cm1 == c0.insert(k1, v1) || cm1 == c0);
    assert(last2 =~= Seq::<Seq<char>>::empty());
    assert(cm2 == cm1);
    assert(last3 == page_news(cm2, t3, b3@));
    let k3 = cache_key_spec(t3.uri@, t3.text@);
    assert(previous_fragments(cm2, k3) == previous_fragments(c0, k3)) by {
        if cm1 == c0.insert(k1, v1) {
            assert(cm2.contains_key(k3) == c0.contains_key(k3));
            assert(c0.contains_key(k3) ==> cm2[k3] == c0[k3]);
        }
    }
    assert(page_news(cm2, t3, b3@) == page_news(c0, t3, b3@));
    assert(front1 =~= last1);
    assert(front2 =~= last1);
    assert(reported == last1 + last3);
    assert(last1 + last3 == page_news(c0, t1, b1@) + page_news(c0, t3, b3@));
}

/// Idempotence of a no-op run: once a successful step has written the
/// cache, the same body for the same target reports nothing.  Holds for
/// matches without embedded newlines; a fragment with one does not
/// survive the newline-delimited cache encoding.
pub proof fn lemma_no_op_second_run(c0: Map<Seq<char>, Seq<char>>, target: Target, body: Seq<char>)
    requires
        crate::text::newline_free(matches_of(text_nodes_of(body), target.text@)),
    ensures
        ({
            let key = cache_key_spec(target.uri@, target.text@);
            let value = join_lines(matches_of(text_nodes_of(body), target.text@));
            page_news(c0.insert(key, value), target, body) == Seq::<Seq<char>>::empty()
        }),
{
    let m = matches_of(text_nodes_of(body), target.text@);
    let key = cache_key_spec(target.uri@, target.text@);
    let c1 = c0.insert(key, join_lines(m));
    assert(previous_fragments(c1, key) == split_lines(join_lines(m)));
    crate::text::lemma_no_op_run(text_nodes_of(body), target.text@);
}

/// The cache key is deterministic: it depends on nothing but the uri and
/// the text, so the same pair keys the same entry on every run.
pub proof fn lemma_cache_key_deterministic(t1: Target, t2: Target)
    requires
        t1.uri@ == t2.uri@,
        t1.text@ == t2.text@,
    ensures
        cache_key_spec(t1.uri@, t1.text@) == cache_key_spec(t2.uri@, t2.text@),
{
}

/// Two targets on the same page with different texts key different cache
/// entries, and writing under one key leaves the entry under the other
/// exactly as it was: the two are diffed independently.
pub proof fn lemma_cache_key_independent(
    uri: Seq<char>,
    t1: Seq<char>,
    t2: Seq<char>,
    m: Map<Seq<char>, Seq<char>>,
    value: Seq<char>,
)
    requires
        t1 != t2,
    ensures
        cache_key_spec(uri, t1) != cache_key_spec(uri, t2),
        previous_fragments(m.insert(cache_key_spec(uri, t1), value), cache_key_spec(uri, t2))
            == previous_fragments(m, cache_key_spec(uri, t2)),
{
    let k1 = cache_key_spec(uri, t1);
    let k2 = cache_key_spec(uri, t2);
    assert(k1 != k2) by {
        reveal_strlit(":");
        if k1 == k2 {
            assert(k1.len() == uri.len() + 1 + t1.len());
            assert(k2.len() == uri.len() + 1 + t2.len());
            assert(t1.len() == t2.len());
            assert forall|j: int| 0 <= j < t1.len() implies t1[j] == t2[j] by {
                assert(k1[uri.len() + 1 + j] == t1[j]);
                assert(k2[uri.len() + 1 + j] == t2[j]);
            }
            assert(t1 =~= t2);
        }
    }
}

} // verus!
