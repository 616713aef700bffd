use vstd::prelude::*;
use vstd::string::StringSliceAdditionalSpecFns;
use crate::content_path::ContentPath;
use crate::matcher::{builder_exact, matcher_fits, uses_fast_magic, Matcher, MatcherBuilder};
use crate::matcher::patterns::{first_equal, last_equal};
use crate::sorting::{first_key, lemma_stable_sort, lemma_stable_sort_map, select, sort_by_first, stable_sort};
use crate::utils::{
    ascii_lower_static, contains_uppercase, copy_lowercase, extension_of, file_name_of, get_extension, get_file_name,
    lower_seq,
};

verus! {

/// Precedence of a filter rule: rules are evaluated from `Highest` to
/// `Lowest`, and in the order they were added within one precedence.
#[derive(Debug, Clone, Copy, PartialEq, Eq, Structural)]
pub enum Precedence {
    /// Evaluated last.
    Lowest,
    /// Evaluated after `Medium`, before `Lowest`.
    Low,
    /// The middle tier.
    Medium,
    /// Evaluated after `Highest`, before `Medium`.
    High,
    /// Evaluated first.
    Highest,
}

/// The rank of a precedence: `Lowest` is 0, `Highest` is 4.
pub open spec fn spec_rank(p: Precedence) -> int {
    match p {
        Precedence::Lowest => 0,
        Precedence::Low => 1,
        Precedence::Medium => 2,
        Precedence::High => 3,
        Precedence::Highest => 4,
    }
}

impl Precedence {
    pub fn rank(self) -> (r: u8)
        ensures
            r == spec_rank(self),
    {
        match self {
            Precedence::Lowest => 0,
            Precedence::Low => 1,
            Precedence::Medium => 2,
            Precedence::High => 3,
            Precedence::Highest => 4,
        }
    }
}

/// A custom filter test on a path and a size.
pub trait PathPredicate {
    /// The test answers as [`verdict`](Self::verdict) says: its answer is
    /// a function of the path and the size alone. Nothing is claimed of a
    /// test that does not say so.
    closed spec fn obeys_verdict(&self) -> bool {
        false
    }

    /// The answer of the test on `path` and `size`, where it obeys it.
    closed spec fn verdict(&self, path: ContentPath, size: u64) -> bool {
        false
    }

    fn test(&self, path: &ContentPath, size: u64) -> (r: bool)
        ensures
            self.obeys_verdict() ==> r == self.verdict(*path, size);
}

/// What a rule looks at.
#[derive(Debug, Clone, Copy, PartialEq, Eq, Structural)]
pub enum RuleKind {
    IncludeExtensions,
    ExcludeExtensions,
    IncludeFileNames,
    ExcludeFileNames,
    Include,
    Exclude,
}

enum FilterRule {
    IncludeExtensions(Matcher<bool>),
    ExcludeExtensions(Matcher<bool>),
    IncludeFileNames(Matcher<bool>),
    ExcludeFileNames(Matcher<bool>),
    Include(Box<dyn PathPredicate>),
    Exclude(Box<dyn PathPredicate>),
}

/// A rule as the contracts see it: its kind and its lowercase patterns.
pub type RuleSpec = (RuleKind, Seq<Seq<u8>>);

/// `d` is one of `pats` (the empty string never matches).
pub open spec fn listed(pats: Seq<Seq<u8>>, d: Seq<u8>) -> bool {
    d.len() > 0 && pats.contains(d)
}

/// The verdict of one rule on a file name and extension, where `hit` is
/// what a custom test returned: `Some(true)` accepts, `Some(false)`
/// rejects, `None` passes to the next rule.
pub open spec fn rule_verdict(rule: RuleSpec, name: Seq<u8>, ext: Seq<u8>, hit: bool) -> Option<bool> {
    match rule.0 {
        RuleKind::IncludeExtensions => if listed(rule.1, ext) { Some(true) } else { None },
        RuleKind::ExcludeExtensions => if listed(rule.1, ext) { Some(false) } else { None },
        RuleKind::IncludeFileNames => if listed(rule.1, name) { Some(true) } else { None },
        RuleKind::ExcludeFileNames => if listed(rule.1, name) { Some(false) } else { None },
        RuleKind::Include => if hit { Some(true) } else { None },
        RuleKind::Exclude => if hit { Some(false) } else { None },
    }
}

/// The verdict of the first rule that decides, or `default`; `hits[i]` is
/// what the custom test of rule `i` returned.
pub open spec fn decide(rules: Seq<RuleSpec>, name: Seq<u8>, ext: Seq<u8>, hits: Seq<bool>, default: bool) -> bool
    decreases rules.len(),
{
    if rules.len() == 0 {
        default
    } else {
        match rule_verdict(rules[0], name, ext, hits[0]) {
            Some(v) => v,
            None => decide(rules.drop_first(), name, ext, hits.drop_first(), default),
        }
    }
}

/// No rule runs a custom test.
pub open spec fn no_custom_tests(rules: Seq<RuleSpec>) -> bool {
    forall|i: int| 0 <= i < rules.len() ==> (#[trigger] rules[i]).0 != RuleKind::Include && rules[i].0 != RuleKind::Exclude
}

/// Without custom tests, the verdict on a path depends only on its file
/// name up to ASCII case: two paths whose lowercase file names agree get
/// the same verdict.
pub proof fn lemma_verdict_ignores_case(rules: Seq<RuleSpec>, p1: Seq<u8>, p2: Seq<u8>, default: bool)
    requires
        no_custom_tests(rules),
        lower_name(p1) == lower_name(p2),
    ensures
        decide(rules, lower_name(p1), extension_of(lower_name(p1)), Seq::new(rules.len(), |i: int| false), default)
            == decide(rules, lower_name(p2), extension_of(lower_name(p2)), Seq::new(rules.len(), |i: int| false), default),
{
}

/// The lowercase file name of a path.
pub open spec fn lower_name(path: Seq<u8>) -> Seq<u8> {
    lower_seq(file_name_of(path))
}

/// Patterns that all stand for `v`.
pub open spec fn uniform(ps: Seq<(bool, Seq<u8>)>, v: bool) -> bool {
    forall|i: int| 0 <= i < ps.len() ==> (#[trigger] ps[i]).0 == v
}

/// The patterns' strings.
pub open spec fn strings_of(ps: Seq<(bool, Seq<u8>)>) -> Seq<Seq<u8>> {
    ps.map_values(|p: (bool, Seq<u8>)| p.1)
}

proof fn lemma_uniform_equal(ps: Seq<(bool, Seq<u8>)>, v: bool, d: Seq<u8>)
    requires
        uniform(ps, v),
    ensures
        first_equal(ps, d) == (if strings_of(ps).contains(d) { Some(v) } else { None::<bool> }),
        last_equal(ps, d) == (if strings_of(ps).contains(d) { Some(v) } else { None::<bool> }),
    decreases ps.len(),
{
    if ps.len() > 0 {
        let init = ps.drop_last();
        lemma_uniform_equal(init, v, d);
        assert(strings_of(init) == strings_of(ps).drop_last());
        if strings_of(ps).contains(d) {
            let k = choose|k: int| 0 <= k < strings_of(ps).len() && strings_of(ps)[k] == d;
            if k < init.len() {
                assert(strings_of(init)[k] == d);
            }
        }
        if strings_of(init).contains(d) {
            let k = choose|k: int| 0 <= k < strings_of(init).len() && strings_of(init)[k] == d;
            assert(strings_of(ps)[k] == d);
        }
        if ps.last().1 == d {
            assert(strings_of(ps)[ps.len() - 1] == d);
        }
    }
}

/// A matcher built from patterns that all stand for `v` answers `v` for
/// exactly the listed strings.
proof fn lemma_uniform_exact(ps: Seq<(bool, Seq<u8>)>, v: bool, d: Seq<u8>)
    requires
        uniform(ps, v),
    ensures
        builder_exact(ps, d) == (if listed(strings_of(ps), d) { Some(v) } else { None::<bool> }),
{
    lemma_uniform_equal(ps, v, d);
    if ps.len() == 1 {
        if strings_of(ps).contains(d) {
            let k = choose|k: int| 0 <= k < strings_of(ps).len() && strings_of(ps)[k] == d;
            assert(k == 0);
        }
        if d == ps[0].1 {
            assert(strings_of(ps)[0] == d);
        }
    }
}

/// Compiled inclusion/exclusion policy applied to every content item
/// before it is scanned. Extension and file-name rules are ASCII
/// case-insensitive.
pub struct Filter {
    rules: Vec<FilterRule>,
    spec_rules: Ghost<Seq<RuleSpec>>,
    default_result: bool,
    check_extensions: bool,
    check_file_names: bool,
    temp_ext: Vec<u8>,
    temp_filename: Vec<u8>,
}

/// The compiled rule `rule` behaves as `spec` says.
spec fn rule_matches_spec(rule: FilterRule, spec: RuleSpec) -> bool {
    match rule {
        FilterRule::IncludeExtensions(m) => spec.0 == RuleKind::IncludeExtensions
            && forall|d: Seq<u8>| #[trigger] m.spec_matches_exactly(d) == (if listed(spec.1, d) { Some(true) } else { None::<bool> }),
        FilterRule::ExcludeExtensions(m) => spec.0 == RuleKind::ExcludeExtensions
            && forall|d: Seq<u8>| #[trigger] m.spec_matches_exactly(d) == (if listed(spec.1, d) { Some(false) } else { None::<bool> }),
        FilterRule::IncludeFileNames(m) => spec.0 == RuleKind::IncludeFileNames
            && forall|d: Seq<u8>| #[trigger] m.spec_matches_exactly(d) == (if listed(spec.1, d) { Some(true) } else { None::<bool> }),
        FilterRule::ExcludeFileNames(m) => spec.0 == RuleKind::ExcludeFileNames
            && forall|d: Seq<u8>| #[trigger] m.spec_matches_exactly(d) == (if listed(spec.1, d) { Some(false) } else { None::<bool> }),
        FilterRule::Include(_) => spec.0 == RuleKind::Include,
        FilterRule::Exclude(_) => spec.0 == RuleKind::Exclude,
    }
}

/// The custom test of `rule`, if it has one, answers as its verdict.
spec fn rule_obeys(rule: FilterRule) -> bool {
    match rule {
        FilterRule::Include(cb) => cb.obeys_verdict(),
        FilterRule::Exclude(cb) => cb.obeys_verdict(),
        _ => true,
    }
}

/// The verdict of the custom test of `rule` on `path` and `size`; `false`
/// for a rule without one.
spec fn rule_hit(rule: FilterRule, path: ContentPath, size: u64) -> bool {
    match rule {
        FilterRule::Include(cb) => cb.verdict(path, size),
        FilterRule::Exclude(cb) => cb.verdict(path, size),
        _ => false,
    }
}

/// The verdicts of the custom tests of `rules` on `path` and `size`.
spec fn rule_hits(rules: Seq<FilterRule>, path: ContentPath, size: u64) -> Seq<bool> {
    Seq::new(rules.len(), |i: int| rule_hit(rules[i], path, size))
}

/// The rule looks at extensions.
pub open spec fn is_ext_rule(k: RuleKind) -> bool {
    k == RuleKind::IncludeExtensions || k == RuleKind::ExcludeExtensions
}

/// The rule looks at file names.
pub open spec fn is_name_rule(k: RuleKind) -> bool {
    k == RuleKind::IncludeFileNames || k == RuleKind::ExcludeFileNames
}

impl Filter {
    /// Every custom test of the filter answers as its verdict.
    pub closed spec fn spec_tests_obey(&self) -> bool {
        forall|i: int| 0 <= i < self.rules@.len() ==> #[trigger] rule_obeys(self.rules@[i])
    }

    /// What the custom test of each rule answers on `path` and `size`
    /// (`false` for a rule without one).
    pub closed spec fn spec_hits(&self, path: ContentPath, size: u64) -> Seq<bool> {
        rule_hits(self.rules@, path, size)
    }

    /// The rules, in evaluation order.
    pub closed spec fn spec_rule_list(&self) -> Seq<RuleSpec> {
        self.spec_rules@
    }

    /// The outcome when no rule decides.
    pub closed spec fn spec_default(&self) -> bool {
        self.default_result
    }

    pub closed spec fn wf(&self) -> bool {
        &&& self.rules@.len() == self.spec_rules@.len()
        &&& forall|i: int| 0 <= i < self.rules@.len() ==> #[trigger] rule_matches_spec(self.rules@[i], self.spec_rules@[i])
        &&& self.check_extensions == exists|i: int| 0 <= i < self.spec_rules@.len() && is_ext_rule((#[trigger] self.spec_rules@[i]).0)
        &&& self.check_file_names == (self.check_extensions
            || exists|i: int| 0 <= i < self.spec_rules@.len() && is_name_rule((#[trigger] self.spec_rules@[i]).0))
    }

    /// Whether the content at `path`, of `size` bytes, passes the filter:
    /// the verdict of the first rule that decides, or the default.
    pub fn should_process(&mut self, path: &ContentPath, size: u64) -> (r: bool)
        requires
            old(self).wf(),
        ensures
            final(self).wf(),
            final(self).spec_rule_list() == old(self).spec_rule_list(),
            final(self).spec_default() == old(self).spec_default(),
            exists|hits: Seq<bool>| hits.len() == old(self).spec_rule_list().len()
                && r == #[trigger] decide(old(self).spec_rule_list(), lower_name(path.spec_bytes()),
                    extension_of(lower_name(path.spec_bytes())), hits, old(self).spec_default()),
            no_custom_tests(old(self).spec_rule_list()) ==> r == decide(old(self).spec_rule_list(),
                lower_name(path.spec_bytes()), extension_of(lower_name(path.spec_bytes())),
                Seq::new(old(self).spec_rule_list().len(), |i: int| false), old(self).spec_default()),
            final(self).spec_tests_obey() == old(self).spec_tests_obey(),
            forall|p: ContentPath, s: u64| #[trigger] final(self).spec_hits(p, s) == old(self).spec_hits(p, s),
            old(self).spec_tests_obey() ==> r == decide(old(self).spec_rule_list(), lower_name(path.spec_bytes()),
                extension_of(lower_name(path.spec_bytes())), old(self).spec_hits(*path, size), old(self).spec_default()),
    {
        let ghost rules = self.spec_rules@;
        let ghost name_full = lower_name(path.spec_bytes());
        let ghost ext_full = extension_of(name_full);
        let file_name: &[u8] = if self.check_file_names {
            let res = get_file_name(path.as_bytes());
            if contains_uppercase(res) {
                copy_lowercase(res, &mut self.temp_filename)
            } else {
                proof {
                    assert(lower_seq(res@) =~= res@) by {
                        assert forall|i: int| 0 <= i < res@.len() implies lower_seq(res@)[i] == res@[i] by {
                            assert(!crate::utils::is_ascii_upper(res@[i]));
                        }
                    }
                }
                res
            }
        } else {
            &[]
        };
        let ext: &[u8] = if self.check_extensions {
            let res = get_extension(file_name);
            if contains_uppercase(res) {
                copy_lowercase(res, &mut self.temp_ext)
            } else {
                proof {
                    assert(lower_seq(res@) =~= res@) by {
                        assert forall|i: int| 0 <= i < res@.len() implies lower_seq(res@)[i] == res@[i] by {
                            assert(!crate::utils::is_ascii_upper(res@[i]));
                        }
                    }
                }
                res
            }
        } else {
            &[]
        };
        assert(self.check_file_names ==> file_name@ == name_full);
        proof {
            crate::utils::lemma_lower_extension(file_name_of(path.spec_bytes()));
        }
        assert(self.check_extensions ==> ext@ == ext_full);
        let ghost check_ext = self.check_extensions;
        let ghost check_names = self.check_file_names;
        let default_result = self.default_result;
        let r = evaluate(&self.rules, Ghost(rules), path, size, file_name, ext, default_result, Ghost(check_ext), Ghost(check_names));
        proof {
            let hits = choose|hits: Seq<bool>| hits.len() == rules.len()
                && r == #[trigger] decide(rules, name_full, ext_full, hits, default_result);
            assert(old(self).spec_rule_list() == rules);
            assert(old(self).spec_default() == default_result);
            assert(r == decide(old(self).spec_rule_list(), name_full, ext_full, hits, old(self).spec_default()));
        }
        r
    }
}

/// Runs the compiled rules in order on a path whose lowercase file name
/// and extension are given (each only where some rule needs it).
fn evaluate(
    compiled: &Vec<FilterRule>,
    Ghost(rules): Ghost<Seq<RuleSpec>>,
    path: &ContentPath,
    size: u64,
    file_name: &[u8],
    ext: &[u8],
    default_result: bool,
    Ghost(check_ext): Ghost<bool>,
    Ghost(check_names): Ghost<bool>,
) -> (r: bool)
    requires
        compiled@.len() == rules.len(),
        forall|j: int| 0 <= j < rules.len() ==> #[trigger] rule_matches_spec(compiled@[j], rules[j]),
        check_ext == exists|i: int| 0 <= i < rules.len() && is_ext_rule((#[trigger] rules[i]).0),
        check_names == (check_ext || exists|i: int| 0 <= i < rules.len() && is_name_rule((#[trigger] rules[i]).0)),
        check_names ==> file_name@ == lower_name(path.spec_bytes()),
        check_ext ==> ext@ == extension_of(lower_name(path.spec_bytes())),
    ensures
        exists|hits: Seq<bool>| hits.len() == rules.len()
            && r == #[trigger] decide(rules, lower_name(path.spec_bytes()), extension_of(lower_name(path.spec_bytes())), hits, default_result),
        no_custom_tests(rules) ==> r == decide(rules, lower_name(path.spec_bytes()),
            extension_of(lower_name(path.spec_bytes())), Seq::new(rules.len(), |i: int| false), default_result),
        (forall|j: int| 0 <= j < compiled@.len() ==> #[trigger] rule_obeys(compiled@[j])) ==> r == decide(rules,
            lower_name(path.spec_bytes()), extension_of(lower_name(path.spec_bytes())),
            rule_hits(compiled@, *path, size), default_result),
{
    let ghost name_full = lower_name(path.spec_bytes());
    let ghost ext_full = extension_of(name_full);
    let ghost mut hits: Seq<bool> = Seq::empty();
    let ghost obey = forall|j: int| 0 <= j < compiled@.len() ==> #[trigger] rule_obeys(compiled@[j]);
    let ghost tested = rule_hits(compiled@, *path, size);
    let mut i: usize = 0;
    while i < compiled.len()
        invariant
            compiled@.len() == rules.len(),
            forall|j: int| 0 <= j < rules.len() ==> #[trigger] rule_matches_spec(compiled@[j], rules[j]),
            check_ext == exists|i: int| 0 <= i < rules.len() && is_ext_rule((#[trigger] rules[i]).0),
            check_names == (check_ext || exists|i: int| 0 <= i < rules.len() && is_name_rule((#[trigger] rules[i]).0)),
            i <= rules.len(),
            hits.len() == i,
            name_full == lower_name(path.spec_bytes()),
            ext_full == extension_of(name_full),
            check_names ==> file_name@ == name_full,
            check_ext ==> ext@ == ext_full,
            forall|j: int| 0 <= j < i ==> rule_verdict(rules[j], name_full, ext_full, #[trigger] hits[j]) is None,
            no_custom_tests(rules) ==> forall|j: int| 0 <= j < i ==> !(#[trigger] hits[j]),
            obey == forall|j: int| 0 <= j < compiled@.len() ==> #[trigger] rule_obeys(compiled@[j]),
            tested == rule_hits(compiled@, *path, size),
            obey ==> forall|j: int| 0 <= j < i ==> #[trigger] hits[j] == tested[j],
        decreases rules.len() - i,
    {
        let ghost rs = rules[i as int];
        proof {
            assert(rule_matches_spec(compiled@[i as int], rs));
            if is_ext_rule(rs.0) {
                assert(is_ext_rule(rules[i as int].0));
            }
            if is_name_rule(rs.0) {
                assert(is_name_rule(rules[i as int].0));
            }
        }
        let verdict: Option<bool> = match &compiled[i] {
            FilterRule::IncludeExtensions(matcher) => matcher.matches_exactly(ext),
            FilterRule::ExcludeExtensions(matcher) => matcher.matches_exactly(ext),
            FilterRule::IncludeFileNames(matcher) => matcher.matches_exactly(file_name),
            FilterRule::ExcludeFileNames(matcher) => matcher.matches_exactly(file_name),
            FilterRule::Include(cb) => {
                if cb.test(path, size) { Some(true) } else { None }
            },
            FilterRule::Exclude(cb) => {
                if cb.test(path, size) { Some(false) } else { None }
            },
        };
        let ghost hit: bool = verdict is Some;
        assert(verdict == rule_verdict(rs, name_full, ext_full, hit));
        proof {
            if obey {
                assert(rule_obeys(compiled@[i as int]));
                assert(rule_verdict(rs, name_full, ext_full, tested[i as int]) == verdict);
            }
        }
        if let Some(v) = verdict {
            proof {
                let all = hits.push(true) + Seq::new((rules.len() - i - 1) as nat, |k: int| false);
                assert(all.len() == rules.len());
                assert forall|j: int| 0 <= j < i implies rule_verdict(rules[j], name_full, ext_full, #[trigger] all[j]) is None by {
                    assert(all[j] == hits[j]);
                }
                assert(all[i as int] == true);
                lemma_decide_at(rules, name_full, ext_full, all, default_result, i as int);
                assert(v == decide(rules, name_full, ext_full, all, default_result));
                assert(exists|h: Seq<bool>| h.len() == rules.len() && v == #[trigger] decide(rules, name_full, ext_full, h, default_result));
                if no_custom_tests(rules) {
                    let zeros = Seq::new(rules.len(), |k: int| false);
                    assert forall|j: int| 0 <= j < i implies rule_verdict(rules[j], name_full, ext_full, #[trigger] zeros[j]) is None by {
                        assert(!hits[j]);
                    }
                    assert(rs.0 != RuleKind::Include && rs.0 != RuleKind::Exclude);
                    assert(zeros[i as int] == false);
                    lemma_decide_at(rules, name_full, ext_full, zeros, default_result, i as int);
                    assert(rule_verdict(rs, name_full, ext_full, false) == verdict);
                    assert(v == decide(rules, name_full, ext_full, zeros, default_result));
                }
                if obey {
                    assert forall|j: int| 0 <= j < i implies rule_verdict(rules[j], name_full, ext_full, #[trigger] tested[j]) is None by {
                        assert(hits[j] == tested[j]);
                    }
                    lemma_decide_at(rules, name_full, ext_full, tested, default_result, i as int);
                }
            }
            return v;
        }
        proof {
            if obey {
                if rs.0 != RuleKind::Include && rs.0 != RuleKind::Exclude {
                    assert(!hit);
                }
                assert(hit == tested[i as int]);
            }
            hits = hits.push(hit);
            if no_custom_tests(rules) {
                assert(rs.0 != RuleKind::Include && rs.0 != RuleKind::Exclude);
                assert(!hit);
            }
        }
        i = i + 1;
    }
    proof {
        lemma_decide_at(rules, name_full, ext_full, hits, default_result, rules.len() as int);
        assert(exists|h: Seq<bool>| h.len() == rules.len() && default_result == #[trigger] decide(rules, name_full, ext_full, h, default_result));
        if no_custom_tests(rules) {
            assert(hits =~= Seq::new(rules.len(), |k: int| false));
        }
        if obey {
            assert(hits =~= tested);
        }
    }
    default_result
}

/// The matcher patterns of a rule over `xs`: each lowercase string,
/// answering `v`.
pub open spec fn rule_patterns(v: bool, xs: Seq<&'static str>) -> Seq<(bool, Seq<u8>)> {
    Seq::new(xs.len(), |i: int| (v, lower_seq(xs[i].spec_bytes())))
}

/// The lowercase patterns of `xs`.
pub open spec fn lowered(xs: Seq<&'static str>) -> Seq<Seq<u8>> {
    xs.map_values(|x: &'static str| lower_seq(x.spec_bytes()))
}

/// Orders ranked rules from `Highest` to `Lowest`.
pub open spec fn rank_key<R>() -> spec_fn((Precedence, R)) -> int {
    |p: (Precedence, R)| 4 - spec_rank(p.0)
}

/// Rules are tried by precedence: in the compiled order every rule of a
/// higher precedence comes before every rule of a lower one, and the rules
/// of one precedence keep the order in which they were added.
pub proof fn lemma_precedence_order(added: Seq<(Precedence, RuleSpec)>)
    ensures
        ({
            let s = stable_sort(added, rank_key::<RuleSpec>());
            &&& s.len() == added.len()
            &&& forall|i: int, j: int| 0 <= i <= j < s.len() ==> spec_rank((#[trigger] s[i]).0) >= spec_rank((#[trigger] s[j]).0)
            &&& forall|p: Precedence| #[trigger] select(s, rank_key::<RuleSpec>(), 4 - spec_rank(p))
                == select(added, rank_key::<RuleSpec>(), 4 - spec_rank(p))
        }),
{
    lemma_stable_sort(added, rank_key::<RuleSpec>());
    let s = stable_sort(added, rank_key::<RuleSpec>());
    assert forall|i: int, j: int| 0 <= i <= j < s.len() implies spec_rank((#[trigger] s[i]).0) >= spec_rank((#[trigger] s[j]).0) by {
        assert((rank_key::<RuleSpec>())(s[i]) <= (rank_key::<RuleSpec>())(s[j]));
    }
}

/// Compiles `patterns` into a matcher that answers `v` for each of their
/// lowercase forms.
fn compile_patterns(v: bool, patterns: &[&'static str]) -> (r: Matcher<bool>)
    requires
        matcher_fits(rule_patterns(v, patterns@)),
    ensures
        forall|d: Seq<u8>| #[trigger] r.spec_matches_exactly(d)
            == (if listed(lowered(patterns@), d) { Some(v) } else { None::<bool> }),
{
    let mut mb: MatcherBuilder<bool> = MatcherBuilder::new();
    let mut i: usize = 0;
    while i < patterns.len()
        invariant
            i <= patterns@.len(),
            mb@.len() == i,
            uniform(mb@, v),
            strings_of(mb@) == lowered(patterns@.take(i as int)),
            mb@ == rule_patterns(v, patterns@.take(i as int)),
        decreases patterns@.len() - i,
    {
        let lower = ascii_lower_static(patterns[i]);
        let ghost before = mb@;
        mb.add(v, lower);
        proof {
            let x = (v, lower@);
            assert(mb@ == before.push(x));
            assert(lower@ == lower_seq(patterns@[i as int].spec_bytes()));
            assert(patterns@.take(i + 1).drop_last() == patterns@.take(i as int));
            assert(patterns@.take(i + 1).last() == patterns@[i as int]);
            assert forall|k: int| 0 <= k < i + 1 implies #[trigger] strings_of(mb@)[k] == lowered(patterns@.take(i + 1))[k] by {
                if k < i {
                    assert(mb@[k] == before[k]);
                    assert(strings_of(before)[k] == lowered(patterns@.take(i as int))[k]);
                    assert(patterns@.take(i + 1)[k] == patterns@.take(i as int)[k]);
                }
            }
            assert(strings_of(mb@) =~= lowered(patterns@.take(i + 1)));
            assert(mb@ =~= rule_patterns(v, patterns@.take(i + 1)));
        }
        i = i + 1;
    }
    proof {
        assert(patterns@.take(patterns@.len() as int) == patterns@);
    }
    let m = mb.build();
    proof {
        assert forall|d: Seq<u8>| #[trigger] m.spec_matches_exactly(d)
            == (if listed(lowered(patterns@), d) { Some(v) } else { None::<bool> }) by {
            lemma_uniform_exact(mb@, v, d);
        }
    }
    m
}

/// Builder for a [`Filter`]: add rules with the `include_*` / `exclude_*`
/// methods, then choose the default with
/// [`deny_the_rest`](Self::deny_the_rest) or
/// [`allow_the_rest`](Self::allow_the_rest).
pub struct FilterBuilder {
    rules: Vec<(Precedence, FilterRule)>,
    spec_rules: Ghost<Seq<(Precedence, RuleSpec)>>,
    default_result: bool,
}

impl FilterBuilder {
    /// The rules added so far, with their precedence, in the order added.
    pub closed spec fn view(&self) -> Seq<(Precedence, RuleSpec)> {
        self.spec_rules@
    }

    pub closed spec fn wf(&self) -> bool {
        &&& self.rules@.len() == self.spec_rules@.len()
        &&& forall|i: int| 0 <= i < self.rules@.len() ==>
            (#[trigger] self.rules@[i]).0 == self.spec_rules@[i].0 && rule_matches_spec(self.rules@[i].1, self.spec_rules@[i].1)
    }

    /// An empty builder: the filter it builds returns its default for every
    /// input.
    pub fn new() -> (r: Self)
        ensures
            r.wf(),
            r@ == Seq::<(Precedence, RuleSpec)>::empty(),
    {
        FilterBuilder { rules: Vec::new(), spec_rules: Ghost(Seq::empty()), default_result: true }
    }

    fn push_rule(self, prec: Precedence, rule: FilterRule, Ghost(spec): Ghost<RuleSpec>) -> (r: Self)
        requires
            self.wf(),
            rule_matches_spec(rule, spec),
        ensures
            r.wf(),
            r@ == self@.push((prec, spec)),
    {
        let mut rules = self.rules;
        rules.push((prec, rule));
        let r = FilterBuilder { rules, spec_rules: Ghost(self.spec_rules@.push((prec, spec))), default_result: self.default_result };
        assert forall|i: int| 0 <= i < r.rules@.len() implies
            (#[trigger] r.rules@[i]).0 == r.spec_rules@[i].0 && rule_matches_spec(r.rules@[i].1, r.spec_rules@[i].1) by {
            if i < self.rules@.len() {
                assert(r.rules@[i] == self.rules@[i]);
            }
        }
        r
    }

    /// Accepts content whose extension is one of `extensions` (ASCII
    /// case-insensitive, without the leading dot). The
    /// lowercase strings must fit one matcher: a trie over them needs at
    /// most 65536 nodes unless they are few and short.
    pub fn include_extensions(self, prec: Precedence, extensions: &[&'static str]) -> (r: Self)
        requires
            self.wf(),
            matcher_fits(rule_patterns(true, extensions@)),
        ensures
            r.wf(),
            r@ == self@.push((prec, (RuleKind::IncludeExtensions, lowered(extensions@)))),
    {
        let m = compile_patterns(true, extensions);
        self.push_rule(prec, FilterRule::IncludeExtensions(m), Ghost((RuleKind::IncludeExtensions, lowered(extensions@))))
    }

    /// Rejects content whose extension is one of `extensions` (ASCII
    /// case-insensitive, without the leading dot). The
    /// lowercase strings must fit one matcher: a trie over them needs at
    /// most 65536 nodes unless they are few and short.
    pub fn exclude_extensions(self, prec: Precedence, extensions: &[&'static str]) -> (r: Self)
        requires
            self.wf(),
            matcher_fits(rule_patterns(false, extensions@)),
        ensures
            r.wf(),
            r@ == self@.push((prec, (RuleKind::ExcludeExtensions, lowered(extensions@)))),
    {
        let m = compile_patterns(false, extensions);
        self.push_rule(prec, FilterRule::ExcludeExtensions(m), Ghost((RuleKind::ExcludeExtensions, lowered(extensions@))))
    }

    /// Accepts content whose file name is one of `file_names` (ASCII
    /// case-insensitive). The
    /// lowercase strings must fit one matcher: a trie over them needs at
    /// most 65536 nodes unless they are few and short.
    pub fn include_file_names(self, prec: Precedence, file_names: &[&'static str]) -> (r: Self)
        requires
            self.wf(),
            matcher_fits(rule_patterns(true, file_names@)),
        ensures
            r.wf(),
            r@ == self@.push((prec, (RuleKind::IncludeFileNames, lowered(file_names@)))),
    {
        let m = compile_patterns(true, file_names);
        self.push_rule(prec, FilterRule::IncludeFileNames(m), Ghost((RuleKind::IncludeFileNames, lowered(file_names@))))
    }

    /// Rejects content whose file name is one of `file_names` (ASCII
    /// case-insensitive). The
    /// lowercase strings must fit one matcher: a trie over them needs at
    /// most 65536 nodes unless they are few and short.
    pub fn exclude_file_names(self, prec: Precedence, file_names: &[&'static str]) -> (r: Self)
        requires
            self.wf(),
            matcher_fits(rule_patterns(false, file_names@)),
        ensures
            r.wf(),
            r@ == self@.push((prec, (RuleKind::ExcludeFileNames, lowered(file_names@)))),
    {
        let m = compile_patterns(false, file_names);
        self.push_rule(prec, FilterRule::ExcludeFileNames(m), Ghost((RuleKind::ExcludeFileNames, lowered(file_names@))))
    }

    /// Adds a custom inclusion test: content for which `callback` returns
    /// `true` is accepted; `false` lets the next rule decide.
    pub fn include_when<P: PathPredicate + 'static>(self, prec: Precedence, callback: P) -> (r: Self)
        requires
            self.wf(),
        ensures
            r.wf(),
            r@ == self@.push((prec, (RuleKind::Include, Seq::<Seq<u8>>::empty()))),
    {
        let cb: Box<dyn PathPredicate> = Box::new(callback);
        self.push_rule(prec, FilterRule::Include(cb), Ghost((RuleKind::Include, Seq::<Seq<u8>>::empty())))
    }

    /// Adds a custom exclusion test: content for which `callback` returns
    /// `true` is rejected; `false` lets the next rule decide.
    pub fn exclude<P: PathPredicate + 'static>(self, prec: Precedence, callback: P) -> (r: Self)
        requires
            self.wf(),
        ensures
            r.wf(),
            r@ == self@.push((prec, (RuleKind::Exclude, Seq::<Seq<u8>>::empty()))),
    {
        let cb: Box<dyn PathPredicate> = Box::new(callback);
        self.push_rule(prec, FilterRule::Exclude(cb), Ghost((RuleKind::Exclude, Seq::<Seq<u8>>::empty())))
    }

    /// Finishes with a deny-by-default policy: content no rule accepts is
    /// rejected.
    pub fn deny_the_rest(self) -> (r: ReadyFilterBuilder)
        requires
            self.wf(),
        ensures
            r.wf(),
            r@ == self@,
            !r.spec_default(),
    {
        ReadyFilterBuilder { builder: FilterBuilder { default_result: false, ..self } }
    }

    /// Finishes with an allow-by-default policy: content no rule rejects is
    /// accepted.
    pub fn allow_the_rest(self) -> (r: ReadyFilterBuilder)
        requires
            self.wf(),
        ensures
            r.wf(),
            r@ == self@,
            r.spec_default(),
    {
        ReadyFilterBuilder { builder: FilterBuilder { default_result: true, ..self } }
    }
}

/// A [`FilterBuilder`] whose default outcome was chosen, ready to build.
pub struct ReadyFilterBuilder {
    builder: FilterBuilder,
}

impl ReadyFilterBuilder {
    pub closed spec fn view(&self) -> Seq<(Precedence, RuleSpec)> {
        self.builder@
    }

    pub closed spec fn spec_default(&self) -> bool {
        self.builder.default_result
    }

    pub closed spec fn wf(&self) -> bool {
        self.builder.wf()
    }

    /// Compiles the filter: rules are ordered from `Highest` to `Lowest`
    /// precedence, keeping the order they were added within a precedence.
    pub fn build(self) -> (r: Filter)
        requires
            self.wf(),
        ensures
            r.wf(),
            r.spec_rule_list() == stable_sort(self@, rank_key::<RuleSpec>()).map_values(|p: (Precedence, RuleSpec)| p.1),
            r.spec_default() == self.spec_default(),
    {
        let ghost view = self.builder.spec_rules@;
        let default_result = self.builder.default_result;
        let mut rest = self.builder.rules;
        let mut keyed: Vec<(u64, (Precedence, FilterRule))> = Vec::new();
        let mut check_extensions = false;
        let mut check_names = false;
        let mut i: usize = 0;
        let total: usize = rest.len();
        let ghost orig = rest@;
        while rest.len() > 0
            invariant
                i <= orig.len(),
                orig.len() == total,
                orig.len() == view.len(),
                forall|j: int| 0 <= j < orig.len() ==>
                    (#[trigger] orig[j]).0 == view[j].0 && rule_matches_spec(orig[j].1, view[j].1),
                rest@ == orig.skip(i as int),
                keyed@.len() == i,
                forall|j: int| 0 <= j < i ==> (#[trigger] keyed@[j]).1 == orig[j]
                    && keyed@[j].0 as int == 4 - spec_rank(orig[j].0),
                check_extensions == exists|j: int| 0 <= j < i && is_ext_rule((#[trigger] view[j]).1.0),
                check_names == exists|j: int| 0 <= j < i && is_name_rule((#[trigger] view[j]).1.0),
            decreases rest@.len(),
        {
            let x = rest.remove(0);
            assert(x == orig[i as int]);
            proof {
                assert(rule_matches_spec(orig[i as int].1, view[i as int].1));
            }
            match &x.1 {
                FilterRule::IncludeExtensions(_) | FilterRule::ExcludeExtensions(_) => {
                    check_extensions = true;
                },
                FilterRule::IncludeFileNames(_) | FilterRule::ExcludeFileNames(_) => {
                    check_names = true;
                },
                _ => {},
            }
            let key = 4 - x.0.rank() as u64;
            keyed.push((key, x));
            i = i + 1;
        }
        let ghost kv = keyed@;
        let sorted = sort_by_first(keyed);
        let ghost sv = sorted@;
        let mut rules: Vec<FilterRule> = Vec::new();
        let mut rest2 = sorted;
        let mut k: usize = 0;
        let total2: usize = rest2.len();
        while rest2.len() > 0
            invariant
                k <= sv.len(),
                sv.len() == total2,
                rest2@ == sv.skip(k as int),
                rules@.len() == k,
                forall|j: int| 0 <= j < k ==> #[trigger] rules@[j] == sv[j].1.1,
            decreases rest2@.len(),
        {
            let x = rest2.remove(0);
            assert(x == sv[k as int]);
            rules.push(x.1.1);
            k = k + 1;
        }
        let ghost spec_list = stable_sort(view, rank_key::<RuleSpec>()).map_values(|p: (Precedence, RuleSpec)| p.1);
        proof {
            lemma_build_rules(orig, view, kv, sv, rules@);
            assert(i == view.len());
            assert(check_extensions == exists|j: int| 0 <= j < spec_list.len() && is_ext_rule((#[trigger] spec_list[j]).0));
            assert(check_names == exists|j: int| 0 <= j < spec_list.len() && is_name_rule((#[trigger] spec_list[j]).0));
        }
        let r = Filter {
            rules,
            spec_rules: Ghost(spec_list),
            default_result,
            check_extensions,
            check_file_names: check_names || check_extensions,
            temp_ext: Vec::new(),
            temp_filename: Vec::new(),
        };
        assert(r.rules@.len() == r.spec_rules@.len());
        assert(forall|i: int| 0 <= i < r.rules@.len() ==> #[trigger] rule_matches_spec(r.rules@[i], r.spec_rules@[i]));
        r
    }
}

/// The compiled rules, sorted by key, stand for the rules of `view` sorted
/// by precedence.
proof fn lemma_build_rules(
    orig: Seq<(Precedence, FilterRule)>,
    view: Seq<(Precedence, RuleSpec)>,
    kv: Seq<(u64, (Precedence, FilterRule))>,
    sv: Seq<(u64, (Precedence, FilterRule))>,
    rules: Seq<FilterRule>,
)
    requires
        orig.len() == view.len(),
        kv.len() == orig.len(),
        forall|j: int| 0 <= j < orig.len() ==> (#[trigger] orig[j]).0 == view[j].0 && rule_matches_spec(orig[j].1, view[j].1),
        forall|j: int| 0 <= j < kv.len() ==> (#[trigger] kv[j]).1 == orig[j] && kv[j].0 as int == 4 - spec_rank(orig[j].0),
        sv == stable_sort(kv, first_key::<(Precedence, FilterRule)>()),
        rules.len() == sv.len(),
        forall|j: int| 0 <= j < sv.len() ==> #[trigger] rules[j] == sv[j].1.1,
    ensures
        ({
            let spec_list = stable_sort(view, rank_key::<RuleSpec>()).map_values(|p: (Precedence, RuleSpec)| p.1);
            &&& rules.len() == spec_list.len()
            &&& forall|j: int| 0 <= j < rules.len() ==> #[trigger] rule_matches_spec(rules[j], spec_list[j])
            &&& (exists|j: int| 0 <= j < spec_list.len() && is_ext_rule((#[trigger] spec_list[j]).0))
                <==> (exists|j: int| 0 <= j < view.len() && is_ext_rule((#[trigger] view[j]).1.0))
            &&& (exists|j: int| 0 <= j < spec_list.len() && is_name_rule((#[trigger] spec_list[j]).0))
                <==> (exists|j: int| 0 <= j < view.len() && is_name_rule((#[trigger] view[j]).1.0))
        }),
{
    let z = Seq::new(kv.len(), |j: int| (kv[j].0, (kv[j].1, view[j])));
    let fa = |x: (u64, ((Precedence, FilterRule), (Precedence, RuleSpec)))| (x.0, x.1.0);
    let fb = |x: (u64, ((Precedence, FilterRule), (Precedence, RuleSpec)))| x.1.1;
    let kz = |x: (u64, ((Precedence, FilterRule), (Precedence, RuleSpec)))| x.0 as int;
    assert(z.map_values(fa) =~= kv);
    assert(z.map_values(fb) =~= view);
    lemma_stable_sort_map(z, fa, kz, first_key::<(Precedence, FilterRule)>());
    assert forall|j: int| 0 <= j < z.len() implies rank_key::<RuleSpec>()(fb(#[trigger] z[j])) == kz(z[j]) by {}
    lemma_stable_sort_map(z, fb, kz, rank_key::<RuleSpec>());
    let sz = stable_sort(z, kz);
    crate::sorting::lemma_stable_sort(z, kz);
    crate::sorting::lemma_stable_sort_elems(z, kz);
    let spec_list = stable_sort(view, rank_key::<RuleSpec>()).map_values(|p: (Precedence, RuleSpec)| p.1);
    assert forall|j: int| 0 <= j < rules.len() implies #[trigger] rule_matches_spec(rules[j], spec_list[j]) by {
        let m = choose|m: int| 0 <= m < z.len() && z[m] == sz[j];
        assert(rule_matches_spec(orig[m].1, view[m].1));
        assert(sv[j] == fa(sz[j]));
    }
    crate::sorting::lemma_stable_sort_contains(view, rank_key::<RuleSpec>());
    let sorted_view = stable_sort(view, rank_key::<RuleSpec>());
    if exists|j: int| 0 <= j < spec_list.len() && is_ext_rule((#[trigger] spec_list[j]).0) {
        let j = choose|j: int| 0 <= j < spec_list.len() && is_ext_rule((#[trigger] spec_list[j]).0);
        assert(sorted_view.contains(sorted_view[j]));
        let m = choose|m: int| 0 <= m < view.len() && view[m] == sorted_view[j];
        assert(is_ext_rule(view[m].1.0));
    }
    if exists|j: int| 0 <= j < view.len() && is_ext_rule((#[trigger] view[j]).1.0) {
        let j = choose|j: int| 0 <= j < view.len() && is_ext_rule((#[trigger] view[j]).1.0);
        assert(view.contains(view[j]));
        assert(sorted_view.contains(view[j]));
        let m = choose|m: int| 0 <= m < sorted_view.len() && sorted_view[m] == view[j];
        assert(is_ext_rule(spec_list[m].0));
    }
    if exists|j: int| 0 <= j < spec_list.len() && is_name_rule((#[trigger] spec_list[j]).0) {
        let j = choose|j: int| 0 <= j < spec_list.len() && is_name_rule((#[trigger] spec_list[j]).0);
        assert(sorted_view.contains(sorted_view[j]));
        let m = choose|m: int| 0 <= m < view.len() && view[m] == sorted_view[j];
        assert(is_name_rule(view[m].1.0));
    }
    if exists|j: int| 0 <= j < view.len() && is_name_rule((#[trigger] view[j]).1.0) {
        let j = choose|j: int| 0 <= j < view.len() && is_name_rule((#[trigger] view[j]).1.0);
        assert(view.contains(view[j]));
        assert(sorted_view.contains(view[j]));
        let m = choose|m: int| 0 <= m < sorted_view.len() && sorted_view[m] == view[j];
        assert(is_name_rule(spec_list[m].0));
    }
}

/// When no rule before `k` decides, the decision is rule `k`'s verdict,
/// or the default past the last rule.
proof fn lemma_decide_at(rules: Seq<RuleSpec>, name: Seq<u8>, ext: Seq<u8>, hits: Seq<bool>, default: bool, k: int)
    requires
        0 <= k <= rules.len(),
        hits.len() == rules.len(),
        forall|j: int| 0 <= j < k ==> rule_verdict(rules[j], name, ext, #[trigger] hits[j]) is None,
    ensures
        k < rules.len() && rule_verdict(rules[k], name, ext, hits[k]) is Some
            ==> decide(rules, name, ext, hits, default) == rule_verdict(rules[k], name, ext, hits[k])->0,
        k == rules.len() ==> decide(rules, name, ext, hits, default) == default,
    decreases k,
{
    if k > 0 {
        assert(rule_verdict(rules[0], name, ext, hits[0]) is None);
        assert forall|j: int| 0 <= j < k - 1 implies rule_verdict(rules.drop_first()[j], name, ext, #[trigger] hits.drop_first()[j]) is None by {
            assert(rules.drop_first()[j] == rules[j + 1]);
            assert(hits.drop_first()[j] == hits[j + 1]);
        }
        lemma_decide_at(rules.drop_first(), name, ext, hits.drop_first(), default, k - 1);
    }
}

/// Rules that pass the decision on can be dropped: the verdict is that of
/// the rules after them.
proof fn lemma_decide_skip(rules: Seq<RuleSpec>, name: Seq<u8>, ext: Seq<u8>, hits: Seq<bool>, default: bool, k: int)
    requires
        0 <= k <= rules.len(),
        hits.len() == rules.len(),
        forall|j: int| 0 <= j < k ==> rule_verdict(rules[j], name, ext, #[trigger] hits[j]) is None,
    ensures
        decide(rules, name, ext, hits, default) == decide(rules.skip(k), name, ext, hits.skip(k), default),
    decreases k,
{
    if k > 0 {
        assert(rule_verdict(rules[0], name, ext, hits[0]) is None);
        assert forall|j: int| 0 <= j < k - 1 implies rule_verdict(rules.drop_first()[j], name, ext, #[trigger] hits.drop_first()[j]) is None by {
            assert(rules.drop_first()[j] == rules[j + 1]);
            assert(hits.drop_first()[j] == hits[j + 1]);
        }
        lemma_decide_skip(rules.drop_first(), name, ext, hits.drop_first(), default, k - 1);
        assert(rules.drop_first().skip(k - 1) =~= rules.skip(k));
        assert(hits.drop_first().skip(k - 1) =~= hits.skip(k));
    } else {
        assert(rules.skip(0) =~= rules);
        assert(hits.skip(0) =~= hits);
    }
}

/// A custom rule decides on the content's own path and size: where every
/// test answers as its verdict and the rules before rule `k` pass the
/// decision on, a custom rule `k` whose test accepts that path and size
/// gives the answer (acceptance for an include test, rejection for an
/// exclude test), and one whose test does not accept them passes the
/// decision on to the rules after it.
pub proof fn lemma_custom_rule_decides(f: Filter, path: ContentPath, size: u64, k: int)
    requires
        f.wf(),
        0 <= k < f.spec_rule_list().len(),
        f.spec_rule_list()[k].0 == RuleKind::Include || f.spec_rule_list()[k].0 == RuleKind::Exclude,
        forall|j: int| 0 <= j < k ==> rule_verdict(f.spec_rule_list()[j], lower_name(path.spec_bytes()),
            extension_of(lower_name(path.spec_bytes())), #[trigger] f.spec_hits(path, size)[j]) is None,
    ensures
        ({
            let rules = f.spec_rule_list();
            let name = lower_name(path.spec_bytes());
            let ext = extension_of(name);
            let hits = f.spec_hits(path, size);
            &&& hits.len() == rules.len()
            &&& hits[k] ==> decide(rules, name, ext, hits, f.spec_default()) == (rules[k].0 == RuleKind::Include)
            &&& !hits[k] ==> decide(rules, name, ext, hits, f.spec_default())
                == decide(rules.skip(k + 1), name, ext, hits.skip(k + 1), f.spec_default())
        }),
{
    let rules = f.spec_rule_list();
    let name = lower_name(path.spec_bytes());
    let ext = extension_of(name);
    let hits = f.spec_hits(path, size);
    assert(hits.len() == rules.len());
    if hits[k] {
        lemma_decide_at(rules, name, ext, hits, f.spec_default(), k);
    } else {
        assert forall|j: int| 0 <= j < k + 1 implies rule_verdict(rules[j], name, ext, #[trigger] hits[j]) is None by {
        }
        lemma_decide_skip(rules, name, ext, hits, f.spec_default(), k + 1);
    }
}

impl Default for FilterBuilder {
    /// An empty builder, as [`FilterBuilder::new`].
    fn default() -> (r: Self)
        ensures
            r.wf(),
            r@ == Seq::<(Precedence, RuleSpec)>::empty(),
    {
        Self::new()
    }
}

} // verus!
