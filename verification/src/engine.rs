//! The tag-resolution engine: decides, per image reference, whether a
//! candidate `name:tag` exists locally or remotely and should replace the
//! declared reference. Registry answers enter as data; the decision
//! logic is verified for every possible answer.

use vstd::prelude::*;
use crate::verbose::Verbosity;
use crate::slug::{get_slug, slug_of};
use crate::compose::{image_name, image_name_exec};
use crate::text::{chars_of, string_of, push_str_chars};
use crate::strsort::{strs_v, sorted_le, insert_sorted};

verus! {

/// A pattern that selects which images are subject to resolution.
/// With `affirmative`, matching images are subject; without it, the
/// non-matching ones are.
pub struct FilterRule {
    pub pattern: String,
    pub affirmative: bool,
}

/// Configuration of one resolution run.
pub struct ReplaceTag {
    /// replace with this tag if a matching image exists
    pub tag: String,
    /// only resolve images selected by this rule, when present
    pub tag_filter: Option<FilterRule>,
    /// treat an authorization failure from the registry as "not found"
    pub ignore_unauthorized: bool,
    /// use `tag` as written, without slugifying it
    pub no_slug: bool,
    /// only consult the local registry
    pub offline: bool,
    /// verbosity of the run
    pub verbosity: Verbosity,
    /// verbosity of per-image progress reporting
    pub progress_verbosity: Verbosity,
    /// how many workers may fetch registry information at once
    pub threads: u8,
}

/// The tag a resolution run looks for.
pub open spec fn remote_tag_v(r: ReplaceTag) -> Seq<char> {
    if r.no_slug {
        r.tag@
    } else {
        slug_of(r.tag@)
    }
}

impl ReplaceTag {
    /// The tag to look for: as given, or its slug.
    pub fn get_remote_tag(&self) -> (r: String)
        ensures
            r@ == remote_tag_v(*self),
    {
        if self.no_slug {
            self.tag.clone()
        } else {
            get_slug(self.tag.as_str())
        }
    }
}

/// Whether a pattern compiles is a function of the pattern alone.
pub uninterp spec fn regex_valid(pattern: Seq<char>) -> bool;

/// Whether a pattern matches a text is a function of the two alone.
pub uninterp spec fn regex_match(pattern: Seq<char>, text: Seq<char>) -> bool;

/// Relies on `regex::Regex::new` and `regex::Regex::is_match`: whether
/// the pattern compiles depends on the pattern alone, and whether it
/// matches depends on the pattern and the text alone. Compiles on every
/// call so that the answer is tied to the pattern itself.
#[verifier::external_body]
fn regex_is_match(pattern: &str, text: &str) -> (r: Option<bool>)
    ensures
        (r is Some) == regex_valid(pattern@),
        r matches Some(b) ==> b == regex_match(pattern@, text@),
{
    match regex::Regex::new(pattern) {
        Ok(re) => Some(re.is_match(text)),
        Err(_) => None,
    }
}

/// Whether an image is subject to resolution under a rule.
pub open spec fn rule_subject(rule: FilterRule, image: Seq<char>) -> bool {
    if rule.affirmative {
        regex_match(rule.pattern@, image)
    } else {
        !regex_match(rule.pattern@, image)
    }
}

/// What the local registry said about a candidate.
pub enum LocalCheck {
    Found,
    NotFound,
    Error(String),
}

/// What the remote registry said about a candidate.
pub enum RemoteCheck {
    Found,
    NotFound,
    Unauthorized(String),
    Error(String),
}

/// One resolution decision: the reference as declared, and the reference
/// to use (equal when nothing changed).
pub struct TagOutcome {
    pub original: String,
    pub resolved: String,
}

/// Why a resolution run stopped.
#[derive(Debug)]
pub enum ResolveError {
    /// the filter pattern does not compile
    InvalidFilter(String),
    /// the registry denied access and that is not ignored
    Unauthorized(String),
    /// any other registry failure
    Fatal(String),
}

/// One mocked or recorded registry answer.
pub struct OracleEntry {
    pub image: String,
    pub local: LocalCheck,
    pub remote: RemoteCheck,
}

/// A table of registry answers, looked up by candidate reference; a
/// candidate without an entry counts as not found anywhere.
pub struct OracleTable {
    pub entries: Vec<OracleEntry>,
}

/// The answers the table holds for a candidate.
pub open spec fn table_find(entries: Seq<OracleEntry>, cand: Seq<char>) -> (
    LocalCheck,
    RemoteCheck,
)
    decreases entries,
{
    if entries.len() == 0 {
        (LocalCheck::NotFound, RemoteCheck::NotFound)
    } else if entries[0].image@ == cand {
        (entries[0].local, entries[0].remote)
    } else {
        table_find(entries.drop_first(), cand)
    }
}

impl OracleTable {
    /// Looks a candidate up.
    pub fn lookup(&self, cand: &str) -> (r: (LocalCheck, RemoteCheck))
        ensures
            r == table_find(self.entries@, cand@),
    {
        let ghost evs = self.entries@;
        proof {
            assert(evs.subrange(0, evs.len() as int) =~= evs);
        }
        let mut i: usize = 0;
        while i < self.entries.len()
            invariant
                0 <= i <= evs.len(),
                evs == self.entries@,
                table_find(evs, cand@) == table_find(
                    evs.subrange(i as int, evs.len() as int),
                    cand@,
                ),
            decreases evs.len() - i,
        {
            proof {
                let suf = evs.subrange(i as int, evs.len() as int);
                assert(suf[0] == evs[i as int]);
                assert(suf.drop_first() =~= evs.subrange(i + 1, evs.len() as int));
            }
            if crate::text::string_eq_str(&self.entries[i].image, cand) {
                let local = clone_local(&self.entries[i].local);
                let remote = clone_remote(&self.entries[i].remote);
                return (local, remote);
            }
            i = i + 1;
        }
        proof {
            assert(evs.subrange(i as int, evs.len() as int) =~= Seq::<OracleEntry>::empty());
        }
        (LocalCheck::NotFound, RemoteCheck::NotFound)
    }
}

fn clone_local(l: &LocalCheck) -> (r: LocalCheck)
    ensures
        r == *l,
{
    match l {
        LocalCheck::Found => LocalCheck::Found,
        LocalCheck::NotFound => LocalCheck::NotFound,
        LocalCheck::Error(m) => LocalCheck::Error(m.clone()),
    }
}

fn clone_remote(l: &RemoteCheck) -> (r: RemoteCheck)
    ensures
        r == *l,
{
    match l {
        RemoteCheck::Found => RemoteCheck::Found,
        RemoteCheck::NotFound => RemoteCheck::NotFound,
        RemoteCheck::Unauthorized(m) => RemoteCheck::Unauthorized(m.clone()),
        RemoteCheck::Error(m) => RemoteCheck::Error(m.clone()),
    }
}

/// The candidate reference for an image: its name with the desired tag.
pub open spec fn candidate_v(image: Seq<char>, rtag: Seq<char>) -> Seq<char> {
    image_name(image) + seq![':'] + rtag
}

/// What to do after the local registry answered.
pub enum LocalDecision {
    /// the candidate exists locally: use it
    UseCandidate,
    /// not found and offline: keep the original
    PassThrough,
    /// not found: ask the remote registry
    CheckRemote,
    /// the local check itself failed: stop everything
    Abort(String),
}

/// What to do after the remote registry answered.
pub enum RemoteDecision {
    /// the candidate's manifest exists: use it
    UseCandidate,
    /// not found anywhere: keep the original
    PassThrough,
    /// access denied and not ignored: stop everything
    AbortUnauthorized(String),
    /// any other failure: stop everything
    Abort(String),
}

/// Decides from the local answer. Found uses the candidate; not found
/// keeps the original when offline and asks the remote registry
/// otherwise; an error aborts the run.
pub fn decide_local(local: LocalCheck, offline: bool) -> (r: LocalDecision)
    ensures
        r == decide_local_v(local, offline),
{
    match local {
        LocalCheck::Found => LocalDecision::UseCandidate,
        LocalCheck::NotFound => {
            if offline {
                LocalDecision::PassThrough
            } else {
                LocalDecision::CheckRemote
            }
        },
        LocalCheck::Error(m) => LocalDecision::Abort(m),
    }
}

pub open spec fn decide_local_v(local: LocalCheck, offline: bool) -> LocalDecision {
    match local {
        LocalCheck::Found => LocalDecision::UseCandidate,
        LocalCheck::NotFound => if offline {
            LocalDecision::PassThrough
        } else {
            LocalDecision::CheckRemote
        },
        LocalCheck::Error(m) => LocalDecision::Abort(m),
    }
}

/// Decides from the remote answer. Found uses the candidate; not found
/// keeps the original; an authorization failure keeps the original only
/// when configured to ignore it; any other failure aborts the run.
pub fn decide_remote(remote: RemoteCheck, ignore_unauthorized: bool) -> (r: RemoteDecision)
    ensures
        r == decide_remote_v(remote, ignore_unauthorized),
{
    match remote {
        RemoteCheck::Found => RemoteDecision::UseCandidate,
        RemoteCheck::NotFound => RemoteDecision::PassThrough,
        RemoteCheck::Unauthorized(m) => {
            if ignore_unauthorized {
                RemoteDecision::PassThrough
            } else {
                RemoteDecision::AbortUnauthorized(m)
            }
        },
        RemoteCheck::Error(m) => RemoteDecision::Abort(m),
    }
}

pub open spec fn decide_remote_v(remote: RemoteCheck, ignore_unauthorized: bool)
    -> RemoteDecision {
    match remote {
        RemoteCheck::Found => RemoteDecision::UseCandidate,
        RemoteCheck::NotFound => RemoteDecision::PassThrough,
        RemoteCheck::Unauthorized(m) => if ignore_unauthorized {
            RemoteDecision::PassThrough
        } else {
            RemoteDecision::AbortUnauthorized(m)
        },
        RemoteCheck::Error(m) => RemoteDecision::Abort(m),
    }
}

/// What one job resolves to, given the configuration and the registry
/// answers: the reference to use, or the error that stops the run.
pub open spec fn step_v(r: ReplaceTag, t: OracleTable, image: Seq<char>) -> Result<
    Seq<char>,
    ResolveError,
> {
    let cand = candidate_v(image, remote_tag_v(r));
    match r.tag_filter {
        Some(rule) => {
            if !regex_valid(rule.pattern@) {
                Err(ResolveError::InvalidFilter(rule.pattern))
            } else if !rule_subject(rule, image) {
                Ok(image)
            } else {
                step_lookup_v(r, t, image, cand)
            }
        },
        None => step_lookup_v(r, t, image, cand),
    }
}

/// The lookup part of one job, after the filter admitted it.
pub open spec fn step_lookup_v(
    r: ReplaceTag,
    t: OracleTable,
    image: Seq<char>,
    cand: Seq<char>,
) -> Result<Seq<char>, ResolveError> {
    let answers = table_find(t.entries@, cand);
    match decide_local_v(answers.0, r.offline) {
        LocalDecision::UseCandidate => Ok(cand),
        LocalDecision::PassThrough => Ok(image),
        LocalDecision::Abort(m) => Err(ResolveError::Fatal(m)),
        LocalDecision::CheckRemote => match decide_remote_v(
            answers.1,
            r.ignore_unauthorized,
        ) {
            RemoteDecision::UseCandidate => Ok(cand),
            RemoteDecision::PassThrough => Ok(image),
            RemoteDecision::AbortUnauthorized(m) => Err(ResolveError::Unauthorized(m)),
            RemoteDecision::Abort(m) => Err(ResolveError::Fatal(m)),
        },
    }
}

/// Builds the candidate reference for an image.
pub fn candidate_exec(image: &str, rtag: &String) -> (r: String)
    ensures
        r@ == candidate_v(image@, rtag@),
{
    let name = image_name_exec(image);
    let mut cs = chars_of(name.as_str());
    cs.push(':');
    push_str_chars(&mut cs, rtag);
    proof {
        assert(cs@ =~= candidate_v(image@, rtag@));
    }
    string_of(&cs)
}

/// Resolves one image against the answer table.
pub fn resolve_step(image: &String, replace: &ReplaceTag, oracle: &OracleTable) -> (r:
    Result<TagOutcome, ResolveError>)
    ensures
        match r {
            Ok(o) => o.original@ == image@ && step_v(*replace, *oracle, image@) == Ok::<
                Seq<char>,
                ResolveError,
            >(o.resolved@),
            Err(e) => step_v(*replace, *oracle, image@) == Err::<Seq<char>, ResolveError>(
                e,
            ),
        },
{
    let rtag = replace.get_remote_tag();
    let candidate = candidate_exec(image.as_str(), &rtag);
    match &replace.tag_filter {
        Some(rule) => {
            match regex_is_match(rule.pattern.as_str(), image.as_str()) {
                None => {
                    return Err(ResolveError::InvalidFilter(rule.pattern.clone()));
                },
                Some(m) => {
                    let subject = if rule.affirmative {
                        m
                    } else {
                        !m
                    };
                    if !subject {
                        return Ok(
                            TagOutcome { original: image.clone(), resolved: image.clone() },
                        );
                    }
                },
            }
        },
        None => {},
    }
    let answers = oracle.lookup(candidate.as_str());
    match decide_local(answers.0, replace.offline) {
        LocalDecision::UseCandidate => Ok(
            TagOutcome { original: image.clone(), resolved: candidate },
        ),
        LocalDecision::PassThrough => Ok(
            TagOutcome { original: image.clone(), resolved: image.clone() },
        ),
        LocalDecision::Abort(m) => Err(ResolveError::Fatal(m)),
        LocalDecision::CheckRemote => {
            match decide_remote(answers.1, replace.ignore_unauthorized) {
                RemoteDecision::UseCandidate => Ok(
                    TagOutcome { original: image.clone(), resolved: candidate },
                ),
                RemoteDecision::PassThrough => Ok(
                    TagOutcome { original: image.clone(), resolved: image.clone() },
                ),
                RemoteDecision::AbortUnauthorized(m) => Err(ResolveError::Unauthorized(m)),
                RemoteDecision::Abort(m) => Err(ResolveError::Fatal(m)),
            }
        },
    }
}

/// The resolved references of a list of outcomes.
pub open spec fn outs_resolved(os: Seq<TagOutcome>) -> Seq<Seq<char>> {
    os.map_values(|o: TagOutcome| o.resolved@)
}

/// The declared references of a list of outcomes.
pub open spec fn outs_original(os: Seq<TagOutcome>) -> Seq<Seq<char>> {
    os.map_values(|o: TagOutcome| o.original@)
}

/// What a whole list of jobs resolves to: every job's resolution, or the
/// first error met.
pub open spec fn resolve_list_v(r: ReplaceTag, t: OracleTable, images: Seq<Seq<char>>)
    -> Result<Seq<Seq<char>>, ResolveError>
    decreases images,
{
    if images.len() == 0 {
        Ok(Seq::empty())
    } else {
        match step_v(r, t, images[0]) {
            Err(e) => Err(e),
            Ok(res) => match resolve_list_v(r, t, images.drop_first()) {
                Err(e) => Err(e),
                Ok(rest) => Ok(seq![res] + rest),
            },
        }
    }
}

/// Resolves every image in order; stops at the first error.
pub fn resolve_images(images: &Vec<String>, replace: &ReplaceTag, oracle: &OracleTable)
    -> (r: Result<Vec<TagOutcome>, ResolveError>)
    ensures
        match r {
            Ok(os) => outs_original(os@) == strs_v(images@) && resolve_list_v(
                *replace,
                *oracle,
                strs_v(images@),
            ) == Ok::<Seq<Seq<char>>, ResolveError>(outs_resolved(os@)),
            Err(e) => resolve_list_v(*replace, *oracle, strs_v(images@)) == Err::<
                Seq<Seq<char>>,
                ResolveError,
            >(e),
        },
{
    let ghost ivs = strs_v(images@);
    proof {
        assert(ivs.subrange(0, ivs.len() as int) =~= ivs);
    }
    let mut os: Vec<TagOutcome> = Vec::new();
    let mut i: usize = 0;
    while i < images.len()
        invariant
            0 <= i <= images@.len(),
            ivs == strs_v(images@),
            ivs.len() == images@.len(),
            os@.len() == i,
            forall|j: int| 0 <= j < i ==> (#[trigger] os@[j]).original@ == ivs[j]
                && step_v(*replace, *oracle, ivs[j]) == Ok::<Seq<char>, ResolveError>(
                os@[j].resolved@,
            ),
        decreases images@.len() - i,
    {
        proof {
            assert(ivs[i as int] == images@[i as int]@);
        }
        match resolve_step(&images[i], replace, oracle) {
            Ok(o) => {
                os.push(o);
            },
            Err(e) => {
                proof {
                    assert forall|j: int| 0 <= j < i implies step_v(
                        *replace,
                        *oracle,
                        #[trigger] ivs[j],
                    ) is Ok by {
                        assert(os@[j].original@ == ivs[j]);
                    }
                    lemma_resolve_list_err(*replace, *oracle, ivs, i as int, e);
                }
                return Err(e);
            },
        }
        i = i + 1;
    }
    proof {
        lemma_resolve_list_ok(*replace, *oracle, ivs, outs_resolved(os@));
        assert(outs_original(os@) =~= ivs);
    }
    Ok(os)
}

/// A list whose every job resolves, resolves to the list of its jobs'
/// resolutions.
proof fn lemma_resolve_list_ok(
    r: ReplaceTag,
    t: OracleTable,
    images: Seq<Seq<char>>,
    res: Seq<Seq<char>>,
)
    requires
        res.len() == images.len(),
        forall|j: int| 0 <= j < images.len() ==> step_v(r, t, #[trigger] images[j]) == Ok::<
            Seq<char>,
            ResolveError,
        >(res[j]),
    ensures
        resolve_list_v(r, t, images) == Ok::<Seq<Seq<char>>, ResolveError>(res),
    decreases images,
{
    if images.len() == 0 {
        assert(res =~= Seq::<Seq<char>>::empty());
    } else {
        assert forall|j: int|
            0 <= j < images.drop_first().len() implies step_v(
            r,
            t,
            #[trigger] images.drop_first()[j],
        ) == Ok::<Seq<char>, ResolveError>(res.drop_first()[j]) by {
            assert(images.drop_first()[j] == images[j + 1]);
            assert(res.drop_first()[j] == res[j + 1]);
        }
        lemma_resolve_list_ok(r, t, images.drop_first(), res.drop_first());
        assert(step_v(r, t, images[0]) == Ok::<Seq<char>, ResolveError>(res[0]));
        assert(seq![res[0]] + res.drop_first() =~= res);
    }
}

/// A list stops with the first job that fails.
proof fn lemma_resolve_list_err(
    r: ReplaceTag,
    t: OracleTable,
    images: Seq<Seq<char>>,
    i: int,
    e: ResolveError,
)
    requires
        0 <= i < images.len(),
        forall|j: int| 0 <= j < i ==> step_v(r, t, #[trigger] images[j]) is Ok,
        step_v(r, t, images[i]) == Err::<Seq<char>, ResolveError>(e),
    ensures
        resolve_list_v(r, t, images) == Err::<Seq<Seq<char>>, ResolveError>(e),
    decreases images,
{
    if i == 0 {
    } else {
        assert forall|j: int|
            0 <= j < i - 1 implies step_v(r, t, #[trigger] images.drop_first()[j])
            is Ok by {
            assert(images.drop_first()[j] == images[j + 1]);
        }
        assert(images.drop_first()[i - 1] == images[i]);
        lemma_resolve_list_err(r, t, images.drop_first(), i - 1, e);
    }
}

/// Sorts the resolved references of a list of outcomes, so that the
/// final image list does not depend on the order jobs were worked in.
pub fn sorted_resolved(outcomes: &Vec<TagOutcome>) -> (r: Vec<String>)
    ensures
        sorted_le(strs_v(r@)),
        strs_v(r@).to_multiset() == outs_resolved(outcomes@).to_multiset(),
{
    broadcast use vstd::seq_lib::group_to_multiset_ensures;

    let ghost ovs = outs_resolved(outcomes@);
    let mut acc: Vec<String> = Vec::new();
    proof {
        assert(strs_v(acc@) =~= Seq::<Seq<char>>::empty());
        assert(ovs.subrange(0, 0) =~= Seq::<Seq<char>>::empty());
    }
    let mut i: usize = 0;
    while i < outcomes.len()
        invariant
            0 <= i <= outcomes@.len(),
            ovs == outs_resolved(outcomes@),
            ovs.len() == outcomes@.len(),
            sorted_le(strs_v(acc@)),
            strs_v(acc@).to_multiset() == ovs.subrange(0, i as int).to_multiset(),
        decreases outcomes@.len() - i,
    {
        insert_sorted(&mut acc, &outcomes[i].resolved);
        proof {
            assert(ovs.subrange(0, i + 1) =~= ovs.subrange(0, i as int).push(
                ovs[i as int],
            ));
            assert(ovs[i as int] == outcomes@[i as int].resolved@);
            vstd::seq_lib::to_multiset_build(ovs.subrange(0, i as int), ovs[i as int]);
            assert(ovs.subrange(0, i as int).push(ovs[i as int]).to_multiset() == ovs
                .subrange(0, i as int).to_multiset().insert(ovs[i as int]));
            assert(ovs.subrange(0, i + 1).to_multiset() == ovs.subrange(
                0,
                i as int,
            ).to_multiset().insert(ovs[i as int]));
        }
        i = i + 1;
    }
    proof {
        assert(ovs.subrange(0, i as int) =~= ovs);
    }
    acc
}

/// A run that succeeds resolves every job; its result is the per-job
/// resolution, in job order.
pub proof fn lemma_resolve_ok_shape(r: ReplaceTag, t: OracleTable, images: Seq<Seq<char>>)
    requires
        resolve_list_v(r, t, images) is Ok,
    ensures
        forall|j: int| 0 <= j < images.len() ==> step_v(r, t, #[trigger] images[j]) is Ok,
        resolve_list_v(r, t, images)->Ok_0 == images.map_values(
            |im: Seq<char>| step_v(r, t, im)->Ok_0,
        ),
    decreases images,
{
    if images.len() > 0 {
        lemma_resolve_ok_shape(r, t, images.drop_first());
        assert forall|j: int| 0 <= j < images.len() implies step_v(
            r,
            t,
            #[trigger] images[j],
        ) is Ok by {
            if j > 0 {
                assert(images.drop_first()[j - 1] == images[j]);
            }
        }
        assert(resolve_list_v(r, t, images)->Ok_0 =~= images.map_values(
            |im: Seq<char>| step_v(r, t, im)->Ok_0,
        )) by {
            assert(images.drop_first().map_values(
                |im: Seq<char>| step_v(r, t, im)->Ok_0,
            ) == resolve_list_v(r, t, images.drop_first())->Ok_0);
        }
    } else {
        assert(resolve_list_v(r, t, images)->Ok_0 =~= images.map_values(
            |im: Seq<char>| step_v(r, t, im)->Ok_0,
        ));
    }
}

/// Mapping a function over two lists with the same multiset of elements
/// gives results with the same multiset.
proof fn lemma_map_multiset(
    f: spec_fn(Seq<char>) -> Seq<char>,
    xs: Seq<Seq<char>>,
    ys: Seq<Seq<char>>,
)
    requires
        xs.to_multiset() == ys.to_multiset(),
    ensures
        xs.map_values(f).to_multiset() == ys.map_values(f).to_multiset(),
    decreases xs.len(),
{
    broadcast use vstd::seq_lib::group_to_multiset_ensures;
    broadcast use vstd::multiset::group_multiset_axioms;

    if xs.len() == 0 {
        assert(ys.len() == ys.to_multiset().len());
        assert(xs.len() == xs.to_multiset().len());
        assert(ys.len() == 0);
        assert(xs.map_values(f) =~= Seq::<Seq<char>>::empty());
        assert(ys.map_values(f) =~= Seq::<Seq<char>>::empty());
    } else {
        let x = xs[0];
        assert(xs.contains(x));
        assert(xs.to_multiset().count(x) > 0);
        assert(ys.to_multiset().count(x) > 0);
        assert(ys.contains(x));
        let k = choose|k: int| 0 <= k < ys.len() && ys[k] == x;
        let ys2 = ys.remove(k);
        assert(ys2.to_multiset() == ys.to_multiset().remove(x));
        assert(xs.remove(0) =~= xs.drop_first());
        assert(xs.drop_first().to_multiset() == xs.to_multiset().remove(x));
        lemma_map_multiset(f, xs.drop_first(), ys2);
        // relate the mapped sequences through the same removals
        assert(xs.map_values(f).remove(0) =~= xs.drop_first().map_values(f));
        assert(xs.map_values(f).remove(0).to_multiset() == xs.map_values(
            f,
        ).to_multiset().remove(f(x)));
        assert(ys.map_values(f).remove(k) =~= ys2.map_values(f));
        assert(ys.map_values(f)[k] == f(x));
        assert(ys.map_values(f).remove(k).to_multiset() == ys.map_values(
            f,
        ).to_multiset().remove(f(x)));
        // both multisets hold f(x), so removing and re-inserting it is the identity
        assert(xs.map_values(f).contains(f(x)));
        assert(ys.map_values(f).contains(f(x)));
        assert(xs.map_values(f).to_multiset() =~= xs.map_values(f).to_multiset().remove(
            f(x),
        ).insert(f(x)));
        assert(ys.map_values(f).to_multiset() =~= ys.map_values(f).to_multiset().remove(
            f(x),
        ).insert(f(x)));
    }
}

/// Determinism of a resolution run: however the same jobs are ordered,
/// a run that succeeds in one order succeeds in any other, and the
/// sorted image lists the two runs yield are identical.
pub proof fn lemma_resolution_deterministic(
    r: ReplaceTag,
    t: OracleTable,
    xs: Seq<Seq<char>>,
    ys: Seq<Seq<char>>,
    sx: Seq<Seq<char>>,
    sy: Seq<Seq<char>>,
)
    requires
        xs.to_multiset() == ys.to_multiset(),
        resolve_list_v(r, t, xs) is Ok,
        resolve_list_v(r, t, ys) is Ok,
        sorted_le(sx),
        sorted_le(sy),
        sx.to_multiset() == resolve_list_v(r, t, xs)->Ok_0.to_multiset(),
        sy.to_multiset() == resolve_list_v(r, t, ys)->Ok_0.to_multiset(),
    ensures
        sx == sy,
{
    lemma_resolve_ok_shape(r, t, xs);
    lemma_resolve_ok_shape(r, t, ys);
    lemma_map_multiset(|im: Seq<char>| step_v(r, t, im)->Ok_0, xs, ys);
    crate::strsort::lemma_sorted_le_unique(sx, sy);
}

/// A run succeeds in every order once it succeeds in one.
pub proof fn lemma_resolution_success_any_order(
    r: ReplaceTag,
    t: OracleTable,
    xs: Seq<Seq<char>>,
    ys: Seq<Seq<char>>,
)
    requires
        xs.to_multiset() == ys.to_multiset(),
        resolve_list_v(r, t, xs) is Ok,
    ensures
        resolve_list_v(r, t, ys) is Ok,
{
    broadcast use vstd::seq_lib::group_to_multiset_ensures;

    lemma_resolve_ok_shape(r, t, xs);
    assert forall|j: int| 0 <= j < ys.len() implies step_v(r, t, #[trigger] ys[j])
        is Ok by {
        assert(ys.contains(ys[j]));
        assert(ys.to_multiset().count(ys[j]) > 0);
        assert(xs.to_multiset().count(ys[j]) > 0);
        assert(xs.contains(ys[j]));
        let m = choose|m: int| 0 <= m < xs.len() && xs[m] == ys[j];
        assert(step_v(r, t, xs[m]) is Ok);
    }
    lemma_resolve_list_ok(
        r,
        t,
        ys,
        ys.map_values(|im: Seq<char>| step_v(r, t, im)->Ok_0),
    );
}

/// Filter correctness: a job the rule does not select is passed through
/// unchanged, whatever any registry would have answered — no lookup
/// takes part in its outcome.
pub proof fn lemma_filter_pass_through(
    r: ReplaceTag,
    t1: OracleTable,
    t2: OracleTable,
    image: Seq<char>,
)
    requires
        r.tag_filter matches Some(rule) && regex_valid(rule.pattern@) && !rule_subject(
            rule,
            image,
        ),
    ensures
        step_v(r, t1, image) == Ok::<Seq<char>, ResolveError>(image),
        step_v(r, t2, image) == Ok::<Seq<char>, ResolveError>(image),
{
}

/// Whether a rule's pattern compiles.
pub fn filter_rule_valid(rule: &FilterRule) -> (r: bool)
    ensures
        r == regex_valid(rule.pattern@),
{
    match regex_is_match(rule.pattern.as_str(), "") {
        Some(_) => true,
        None => false,
    }
}

/// Whether the rule selects this image for resolution; nothing when the
/// pattern does not compile.
pub fn rule_selects(rule: &FilterRule, image: &str) -> (r: Option<bool>)
    ensures
        match r {
            Some(b) => regex_valid(rule.pattern@) && b == rule_subject(*rule, image@),
            None => !regex_valid(rule.pattern@),
        },
{
    match regex_is_match(rule.pattern.as_str(), image) {
        None => None,
        Some(m) => {
            if rule.affirmative {
                Some(m)
            } else {
                Some(!m)
            }
        },
    }
}

impl crate::compose::ComposeYaml {
    /// The image list a resolution run yields: the document's images,
    /// optionally filtered by tag, each resolved against the registry
    /// answers, sorted. Whatever order the distinct images are worked
    /// in, this is the list.
    pub fn get_images_resolved(
        &self,
        filter_by_tag: Option<&str>,
        replace: &ReplaceTag,
        oracle: &OracleTable,
    ) -> (r: Result<Option<Vec<String>>, ResolveError>)
        ensures
            ({
                let fv = match filter_by_tag {
                    Some(f) => Some(f@),
                    None => None,
                };
                match r {
                    Ok(opt) => match opt {
                        None => crate::compose::root_mapping(
                            crate::node::entries_v(self.root@),
                            "services"@,
                        ) is None,
                        Some(names) => crate::compose::root_mapping(
                            crate::node::entries_v(self.root@),
                            "services"@,
                        ) matches Some(ss) && (forall|imgs: Seq<Seq<char>>|
                            crate::strsort::sorted_lt(imgs) && imgs.to_set()
                                == crate::compose::services_images(ss, fv) ==> (
                            resolve_list_v(*replace, *oracle, imgs) matches Ok(rs)
                                && sorted_le(strs_v(names@)) && strs_v(names@).to_multiset()
                                == rs.to_multiset())),
                    },
                    Err(e) => crate::compose::root_mapping(
                        crate::node::entries_v(self.root@),
                        "services"@,
                    ) matches Some(ss) && (forall|imgs: Seq<Seq<char>>|
                        crate::strsort::sorted_lt(imgs) && imgs.to_set()
                            == crate::compose::services_images(ss, fv) ==> resolve_list_v(
                            *replace,
                            *oracle,
                            imgs,
                        ) == Err::<Seq<Seq<char>>, ResolveError>(e)),
                }
            }),
    {
        let images = match self.get_images(filter_by_tag) {
            None => {
                return Ok(None);
            },
            Some(images) => images,
        };
        match resolve_images(&images, replace, oracle) {
            Ok(outcomes) => {
                let names = sorted_resolved(&outcomes);
                proof {
                    let ghost fv: Option<Seq<char>> = match filter_by_tag {
                        Some(f) => Some(f@),
                        None => None,
                    };
                    let ss = crate::compose::root_mapping(
                        crate::node::entries_v(self.root@),
                        "services"@,
                    )->0;
                    assert forall|imgs: Seq<Seq<char>>|
                        crate::strsort::sorted_lt(imgs) && imgs.to_set()
                            == crate::compose::services_images(ss, fv) implies (
                    resolve_list_v(*replace, *oracle, imgs) matches Ok(rs) && sorted_le(
                        strs_v(names@),
                    ) && strs_v(names@).to_multiset() == rs.to_multiset()) by {
                        crate::strsort::lemma_sorted_lt_unique(imgs, strs_v(images@));
                    }
                }
                Ok(Some(names))
            },
            Err(e) => {
                proof {
                    let ghost fv: Option<Seq<char>> = match filter_by_tag {
                        Some(f) => Some(f@),
                        None => None,
                    };
                    let ss = crate::compose::root_mapping(
                        crate::node::entries_v(self.root@),
                        "services"@,
                    )->0;
                    assert forall|imgs: Seq<Seq<char>>|
                        crate::strsort::sorted_lt(imgs) && imgs.to_set()
                            == crate::compose::services_images(ss, fv) implies resolve_list_v(
                        *replace,
                        *oracle,
                        imgs,
                    ) == Err::<Seq<Seq<char>>, ResolveError>(e) by {
                        crate::strsort::lemma_sorted_lt_unique(imgs, strs_v(images@));
                    }
                }
                Err(e)
            },
        }
    }
}

} // verus!
