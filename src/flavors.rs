//! Expanding the manifest's flavor rules into concrete flavors.
use vstd::prelude::*;
use vstd::string::*;
use vstd::utf8::*;

use crate::listing::bytes_equal;
use crate::manifest::{Docs, DocsFlavor, Manifest};

verus! {

broadcast use vstd::utf8::group_utf8_lib;

/// Whether the regex crate accepts a pattern.
pub uninterp spec fn regex_valid(pattern: Seq<char>) -> bool;

/// Whether a (valid) pattern matches somewhere in a text.
pub uninterp spec fn regex_matches(pattern: Seq<char>, text: Seq<char>) -> bool;

/// Relies on `regex::Regex::new` (whether the pattern compiles) and
/// `Regex::is_match` (whether it matches the text).
#[verifier::external_body]
fn regex_is_match(pattern: &str, text: &str) -> (r: Option<bool>)
    ensures
        r is None <==> !regex_valid(pattern@),
        match r {
            Some(b) => b == regex_matches(pattern@, text@),
            None => true,
        },
{
    match regex::Regex::new(pattern) {
        Ok(re) => Some(re.is_match(text)),
        Err(_) => None,
    }
}

/// One documentation build: a name, the features to enable and the target.
#[derive(Debug, Clone)]
pub struct Flavor {
    pub name: String,
    pub features: Vec<String>,
    pub target: String,
}

/// Why the flavor rules cannot be expanded.
#[derive(Debug, Clone, Copy, PartialEq, Eq, Structural)]
pub enum FlavorError {
    /// A rule sets both or neither of `name` and `regex_feature`.
    InvalidFlavor,
    /// A `regex_feature` pattern does not compile.
    InvalidRegex,
    /// A flavor has no target, neither its own nor the global one.
    MissingTarget,
    /// The rules produce no flavor at all.
    NoFlavors,
}

pub struct FlavorSpec {
    pub name: Seq<char>,
    pub features: Seq<Seq<char>>,
    pub target: Seq<char>,
}

pub struct RuleSpec {
    pub regex_feature: Option<Seq<char>>,
    pub name: Option<Seq<char>>,
    pub features: Seq<Seq<char>>,
    pub target: Option<Seq<char>>,
}

pub open spec fn strs(v: Seq<String>) -> Seq<Seq<char>> {
    v.map_values(|s: String| s@)
}

pub open spec fn opt_str(o: Option<String>) -> Option<Seq<char>> {
    match o {
        Some(s) => Some(s@),
        None => None,
    }
}

impl View for Flavor {
    type V = FlavorSpec;

    open spec fn view(&self) -> FlavorSpec {
        FlavorSpec { name: self.name@, features: strs(self.features@), target: self.target@ }
    }
}

pub open spec fn rule_view(r: DocsFlavor) -> RuleSpec {
    RuleSpec {
        regex_feature: opt_str(r.regex_feature),
        name: opt_str(r.name),
        features: strs(r.features@),
        target: opt_str(r.target),
    }
}

pub open spec fn flavors_view(v: Seq<Flavor>) -> Seq<FlavorSpec> {
    v.map_values(|f: Flavor| f@)
}

/// A `regex_feature` pattern must match a whole feature name.
pub open spec fn anchored(re: Seq<char>) -> Seq<char> {
    seq!['^'] + re + seq!['$']
}

/// The features, in order, that the pattern matches and that no earlier
/// regex rule took, with the taken names extended by them.
pub open spec fn expand(pat: Seq<char>, names: Seq<Seq<char>>, taken: Seq<Seq<char>>) -> (Seq<Seq<char>>, Seq<Seq<char>>)
    decreases names.len(),
{
    if names.len() == 0 {
        (Seq::empty(), taken)
    } else if regex_matches(pat, names[0]) && !taken.contains(names[0]) {
        let (h, t) = expand(pat, names.drop_first(), taken.push(names[0]));
        (seq![names[0]] + h, t)
    } else {
        expand(pat, names.drop_first(), taken)
    }
}

/// One base per selected feature: the feature's name, enabling that feature.
pub open spec fn single_bases(h: Seq<Seq<char>>) -> Seq<(Seq<char>, Seq<Seq<char>>)> {
    h.map_values(|f: Seq<char>| (f, seq![f]))
}

pub open spec fn rules_of(docs: Docs) -> Seq<RuleSpec> {
    docs.flavors@.map_values(|r: DocsFlavor| rule_view(r))
}

pub open spec fn with_features(
    bases: Seq<(Seq<char>, Seq<Seq<char>>)>,
    extra: Seq<Seq<char>>,
    target: Seq<char>,
) -> Seq<FlavorSpec> {
    bases.map_values(|b: (Seq<char>, Seq<Seq<char>>)| FlavorSpec { name: b.0, features: b.1 + extra, target })
}

/// The flavors one rule produces, and the names taken so far.
pub open spec fn rule_result(
    rule: RuleSpec,
    names: Seq<Seq<char>>,
    global: Seq<Seq<char>>,
    global_target: Option<Seq<char>>,
    taken: Seq<Seq<char>>,
) -> Result<(Seq<FlavorSpec>, Seq<Seq<char>>), FlavorError> {
    let bases: Result<(Seq<(Seq<char>, Seq<Seq<char>>)>, Seq<Seq<char>>), FlavorError> =
        match (rule.name, rule.regex_feature) {
        (Some(n), None) => Ok((seq![(n, Seq::<Seq<char>>::empty())], taken)),
        (None, Some(re)) => if !regex_valid(anchored(re)) {
            Err(FlavorError::InvalidRegex)
        } else {
            let (h, t) = expand(anchored(re), names, taken);
            Ok((single_bases(h), t))
        },
        _ => Err(FlavorError::InvalidFlavor),
    };
    match bases {
        Err(e) => Err(e),
        Ok((b, t)) => {
            let target = match rule.target {
                Some(x) => Some(x),
                None => global_target,
            };
            if b.len() == 0 {
                Ok((Seq::empty(), t))
            } else {
                match target {
                    None => Err(FlavorError::MissingTarget),
                    Some(x) => Ok((with_features(b, global + rule.features, x), t)),
                }
            }
        },
    }
}

/// The flavors of a list of rules, in declaration order.
pub open spec fn rules_result(
    rules: Seq<RuleSpec>,
    names: Seq<Seq<char>>,
    global: Seq<Seq<char>>,
    global_target: Option<Seq<char>>,
    taken: Seq<Seq<char>>,
) -> Result<Seq<FlavorSpec>, FlavorError>
    decreases rules.len(),
{
    if rules.len() == 0 {
        Ok(Seq::empty())
    } else {
        match rule_result(rules[0], names, global, global_target, taken) {
            Err(e) => Err(e),
            Ok((fs, t)) => match rules_result(rules.drop_first(), names, global, global_target, t) {
                Err(e) => Err(e),
                Ok(rest) => Ok(fs + rest),
            },
        }
    }
}

pub open spec fn feature_names(m: Manifest) -> Seq<Seq<char>> {
    m.features@.map_values(|f: (String, Vec<String>)| f.0@)
}

/// The flavors a manifest declares.
pub open spec fn flavors_of(m: Manifest) -> Result<Seq<FlavorSpec>, FlavorError> {
    let docs = m.package.metadata.embassy_docs;
    let rules = rules_of(docs);
    if rules.len() == 0 {
        match opt_str(docs.target) {
            None => Err(FlavorError::MissingTarget),
            Some(t) => Ok(seq![FlavorSpec { name: "default"@, features: strs(docs.features@), target: t }]),
        }
    } else {
        match rules_result(rules, feature_names(m), strs(docs.features@), opt_str(docs.target), Seq::empty()) {
            Err(e) => Err(e),
            Ok(fs) => if fs.len() == 0 {
                Err(FlavorError::NoFlavors)
            } else {
                Ok(fs)
            },
        }
    }
}

fn copy_strings(v: &Vec<String>) -> (r: Vec<String>)
    ensures
        strs(r@) == strs(v@),
{
    let mut r: Vec<String> = Vec::new();
    let mut i: usize = 0;
    while i < v.len()
        invariant
            i <= v@.len(),
            r@.len() == i,
            forall|j: int| 0 <= j < i ==> (#[trigger] r@[j])@ == v@[j]@,
        decreases v@.len() - i,
    {
        r.push(v[i].clone());
        i = i + 1;
    }
    assert(strs(r@) =~= strs(v@));
    r
}

fn copy_opt(o: &Option<String>) -> (r: Option<String>)
    ensures
        opt_str(r) == opt_str(*o),
{
    match o {
        Some(s) => Some(s.clone()),
        None => None,
    }
}

fn contains_str(v: &Vec<String>, s: &str) -> (r: bool)
    ensures
        r == strs(v@).contains(s@),
{
    let mut i: usize = 0;
    while i < v.len()
        invariant
            i <= v@.len(),
            forall|j: int| 0 <= j < i ==> strs(v@)[j] != s@,
        decreases v@.len() - i,
    {
        proof {
            encode_utf8_decode_utf8(v@[i as int]@);
            encode_utf8_decode_utf8(s@);
        }
        if bytes_equal(v[i].as_str().as_bytes(), s.as_bytes()) {
            assert(strs(v@)[i as int] == s@);
            return true;
        }
        i = i + 1;
    }
    false
}

/// The features that `pat` selects, extending `taken` by them.
fn expand_exec(pat: &str, names: &Vec<String>, taken: &mut Vec<String>) -> (r: Vec<String>)
    requires
        regex_valid(pat@),
    ensures
        (strs(r@), strs(final(taken)@)) == expand(pat@, strs(names@), strs(old(taken)@)),
{
    let mut hits: Vec<String> = Vec::new();
    let mut i: usize = 0;
    proof {
        let (h, t) = expand(pat@, strs(names@), strs(taken@));
        assert(strs(names@).skip(0) =~= strs(names@));
        assert(strs(hits@) + h =~= h);
    }
    while i < names.len()
        invariant
            i <= names@.len(),
            regex_valid(pat@),
            expand(pat@, strs(names@), strs(old(taken)@)) == ({
                let (h, t) = expand(pat@, strs(names@).skip(i as int), strs(taken@));
                (strs(hits@) + h, t)
            }),
        decreases names@.len() - i,
    {
        let ghost rest = strs(names@).skip(i as int);
        proof {
            assert(rest[0] == names@[i as int]@);
            assert(rest.drop_first() =~= strs(names@).skip(i + 1));
        }
        let m = regex_is_match(pat, names[i].as_str());
        let hit = match m {
            Some(b) => b,
            None => false,
        };
        if hit && !contains_str(taken, names[i].as_str()) {
            let ghost old_hits = strs(hits@);
            let ghost old_taken = strs(taken@);
            hits.push(names[i].clone());
            taken.push(names[i].clone());
            proof {
                assert(strs(hits@) =~= old_hits.push(rest[0]));
                assert(strs(taken@) =~= old_taken.push(rest[0]));
                let (h, t) = expand(pat@, rest.drop_first(), old_taken.push(rest[0]));
                assert(old_hits + (seq![rest[0]] + h) =~= old_hits.push(rest[0]) + h);
            }
        }
        i = i + 1;
    }
    proof {
        assert(strs(names@).skip(i as int) =~= Seq::<Seq<char>>::empty());
        assert(strs(hits@) + Seq::<Seq<char>>::empty() =~= strs(hits@));
    }
    hits
}

/// The flavors one rule produces; regex rules extend `taken` by the
/// features they select.
fn rule_flavors(
    rule: &DocsFlavor,
    names: &Vec<String>,
    global: &Vec<String>,
    global_target: &Option<String>,
    taken: &mut Vec<String>,
) -> (r: Result<Vec<Flavor>, FlavorError>)
    ensures
        match rule_result(rule_view(*rule), strs(names@), strs(global@), opt_str(*global_target), strs(old(taken)@)) {
            Ok((fs, t)) => r is Ok && flavors_view(r->Ok_0@) == fs && strs(final(taken)@) == t,
            Err(e) => r == Err::<Vec<Flavor>, FlavorError>(e),
        },
{
    let ghost rv = rule_view(*rule);
    let mut bases: Vec<(String, Vec<String>)> = Vec::new();
    match (&rule.name, &rule.regex_feature) {
        (Some(n), None) => {
            bases.push((n.clone(), Vec::new()));
            proof {
                assert(strs(bases@[0].1@) =~= Seq::<Seq<char>>::empty());
                assert(bases_view(bases@) =~= seq![(n@, Seq::<Seq<char>>::empty())]);
            }
        },
        (None, Some(re)) => {
            let mut pat = "^".to_string();
            pat.append(re.as_str());
            pat.append("$");
            proof {
                reveal_strlit("^");
                reveal_strlit("$");
                assert(pat@ =~= anchored(re@));
            }
            if regex_is_match(pat.as_str(), "").is_none() {
                return Err(FlavorError::InvalidRegex);
            }
            let hits = expand_exec(pat.as_str(), names, taken);
            let mut j: usize = 0;
            while j < hits.len()
                invariant
                    j <= hits@.len(),
                    bases@.len() == j,
                    forall|x: int| 0 <= x < j ==> (#[trigger] bases@[x]).0@ == hits@[x]@
                        && strs(bases@[x].1@) == seq![hits@[x]@],
                decreases hits@.len() - j,
            {
                let mut one: Vec<String> = Vec::new();
                one.push(hits[j].clone());
                assert(strs(one@) =~= seq![hits@[j as int]@]);
                bases.push((hits[j].clone(), one));
                j = j + 1;
            }
            proof {
                assert forall|x: int| 0 <= x < bases@.len() implies bases_view(bases@)[x] == single_bases(strs(hits@))[x] by {
                    assert(bases@[x].0@ == hits@[x]@);
                    assert(strs(hits@)[x] == hits@[x]@);
                }
                assert(bases_view(bases@) =~= single_bases(strs(hits@)));
            }
        },
        _ => {
            return Err(FlavorError::InvalidFlavor);
        },
    }
    let target = match &rule.target {
        Some(t) => Some(t.clone()),
        None => copy_opt(global_target),
    };
    assert(opt_str(target) == match rv.target { Some(x) => Some(x), None => opt_str(*global_target) });
    if bases.len() > 0 && target.is_none() {
        return Err(FlavorError::MissingTarget);
    }
    let mut out: Vec<Flavor> = Vec::new();
    let mut j: usize = 0;
    while j < bases.len()
        invariant
            j <= bases@.len(),
            bases@.len() > 0 ==> target is Some,
            rv == rule_view(*rule),
            out@.len() == j,
            forall|x: int| 0 <= x < j ==> (#[trigger] out@[x])@ == with_features(
                bases_view(bases@),
                strs(global@) + rv.features,
                opt_str(target)->0,
            )[x],
        decreases bases@.len() - j,
    {
        let mut features = copy_strings(&bases[j].1);
        let mut g = copy_strings(global);
        let mut extra = copy_strings(&rule.features);
        let ghost f0 = strs(features@);
        let ghost g0 = strs(g@);
        let ghost e0 = strs(extra@);
        let ghost v0 = features@;
        let ghost vg = g@;
        features.append(&mut g);
        let ghost v1 = features@;
        assert(strs(v0 + vg) =~= f0 + g0);
        let ghost ve = extra@;
        features.append(&mut extra);
        assert(strs(v1 + ve) =~= strs(v1) + e0);
        assert(strs(features@) =~= f0 + (strs(global@) + rv.features));
        assert(f0 == bases_view(bases@)[j as int].1);
        let t = match &target {
            Some(t) => t.clone(),
            None => String::new(),
        };
        out.push(Flavor { name: bases[j].0.clone(), features, target: t });
        j = j + 1;
    }
    proof {
        if bases@.len() > 0 {
            assert(flavors_view(out@) =~= with_features(bases_view(bases@), strs(global@) + rv.features, opt_str(target)->0));
        } else {
            assert(flavors_view(out@) =~= Seq::<FlavorSpec>::empty());
        }
    }
    Ok(out)
}

/// Expands the manifest's flavor rules. Without rules there is one flavor,
/// `default`, with the global features and target.
pub fn calc_flavors(manifest: &Manifest) -> (r: Result<Vec<Flavor>, FlavorError>)
    ensures
        match r {
            Ok(v) => flavors_of(*manifest) == Ok::<Seq<FlavorSpec>, FlavorError>(flavors_view(v@)),
            Err(e) => flavors_of(*manifest) == Err::<Seq<FlavorSpec>, FlavorError>(e),
        },
{
    let docs = &manifest.package.metadata.embassy_docs;
    let ghost rules = rules_of(*docs);
    if docs.flavors.len() == 0 {
        return match &docs.target {
            None => Err(FlavorError::MissingTarget),
            Some(t) => {
                let mut v: Vec<Flavor> = Vec::new();
                v.push(Flavor { name: "default".to_string(), features: copy_strings(&docs.features), target: t.clone() });
                proof {
                    reveal_strlit("default");
                    assert(flavors_view(v@) =~= seq![FlavorSpec { name: "default"@, features: strs(docs.features@), target: t@ }]);
                }
                Ok(v)
            },
        };
    }
    let mut names: Vec<String> = Vec::new();
    let mut k: usize = 0;
    while k < manifest.features.len()
        invariant
            k <= manifest.features@.len(),
            names@.len() == k,
            forall|x: int| 0 <= x < k ==> (#[trigger] names@[x])@ == manifest.features@[x].0@,
        decreases manifest.features@.len() - k,
    {
        names.push(manifest.features[k].0.clone());
        k = k + 1;
    }
    assert(strs(names@) =~= feature_names(*manifest));
    let mut taken: Vec<String> = Vec::new();
    let mut out: Vec<Flavor> = Vec::new();
    let mut i: usize = 0;
    proof {
        assert(rules.skip(0) =~= rules);
        assert(strs(taken@) =~= Seq::<Seq<char>>::empty());
        match rules_result(rules, strs(names@), strs(docs.features@), opt_str(docs.target), Seq::empty()) {
            Ok(rest) => assert(flavors_view(out@) + rest =~= rest),
            Err(_) => {},
        }
    }
    while i < docs.flavors.len()
        invariant
            i <= docs.flavors@.len(),
            rules == rules_of(*docs),
            *docs == manifest.package.metadata.embassy_docs,
            strs(names@) == feature_names(*manifest),
            rules_result(rules, strs(names@), strs(docs.features@), opt_str(docs.target), Seq::empty()) == match rules_result(
                rules.skip(i as int),
                strs(names@),
                strs(docs.features@),
                opt_str(docs.target),
                strs(taken@),
            ) {
                Ok(rest) => Ok(flavors_view(out@) + rest),
                Err(e) => Err(e),
            },
        decreases docs.flavors@.len() - i,
    {
        proof {
            assert(rules.skip(i as int)[0] == rule_view(docs.flavors@[i as int]));
            assert(rules.skip(i as int).drop_first() =~= rules.skip(i + 1));
        }
        let ghost out_before = flavors_view(out@);
        let ghost taken_before = strs(taken@);
        let mut fs = match rule_flavors(&docs.flavors[i], &names, &docs.features, &docs.target, &mut taken) {
            Ok(fs) => fs,
            Err(e) => {
                proof {
                    let rr = rule_result(rules.skip(i as int)[0], strs(names@), strs(docs.features@), opt_str(docs.target), taken_before);
                    assert(rr == Err::<(Seq<FlavorSpec>, Seq<Seq<char>>), FlavorError>(e));
                    assert(rules.skip(i as int).len() > 0);
                    assert(rules_result(rules.skip(i as int), strs(names@), strs(docs.features@), opt_str(docs.target), taken_before)
                        == Err::<Seq<FlavorSpec>, FlavorError>(e));
                }
                return Err(e);
            },
        };
        let ghost fsv = flavors_view(fs@);
        out.append(&mut fs);
        proof {
            assert(flavors_view(out@) =~= out_before + fsv);
            match rules_result(rules.skip(i + 1), strs(names@), strs(docs.features@), opt_str(docs.target), strs(taken@)) {
                Ok(rest) => assert(out_before + (fsv + rest) =~= flavors_view(out@) + rest),
                Err(_) => {},
            }
        }
        i = i + 1;
    }
    proof {
        assert(rules.skip(i as int) =~= Seq::<RuleSpec>::empty());
        assert(flavors_view(out@) + Seq::<FlavorSpec>::empty() =~= flavors_view(out@));
    }
    if out.len() == 0 {
        return Err(FlavorError::NoFlavors);
    }
    Ok(out)
}

pub open spec fn bases_view(b: Seq<(String, Vec<String>)>) -> Seq<(Seq<char>, Seq<Seq<char>>)> {
    b.map_values(|x: (String, Vec<String>)| (x.0@, strs(x.1@)))
}

} // verus!
