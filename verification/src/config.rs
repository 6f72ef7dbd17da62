use vstd::prelude::*;

use crate::text::str_eq;

verus! {

/// The rule switches of a configuration: for some rule identifiers, whether the
/// rule is on.
#[derive(Debug)]
pub struct Config {
    rule_overrides: Vec<(String, bool)>,
}

/// The switches that a list of (identifier, on) pairs sets; a later pair for
/// the same identifier wins.
pub open spec fn overrides_map(pairs: Seq<(String, bool)>) -> Map<Seq<char>, bool>
    decreases pairs.len(),
{
    if pairs.len() == 0 {
        Map::empty()
    } else {
        overrides_map(pairs.drop_last()).insert(pairs.last().0@, pairs.last().1)
    }
}

/// No identifier occurs twice.
pub open spec fn distinct_keys(pairs: Seq<(String, bool)>) -> bool {
    forall|i: int, j: int|
        0 <= i < pairs.len() && 0 <= j < pairs.len() && i != j ==> #[trigger] pairs[i].0@
            != #[trigger] pairs[j].0@
}

/// With distinct identifiers, the switch of each identifier is that of its pair.
pub proof fn lemma_overrides_map(pairs: Seq<(String, bool)>)
    requires
        distinct_keys(pairs),
    ensures
        forall|i: int|
            0 <= i < pairs.len() ==> #[trigger] overrides_map(pairs).contains_key(pairs[i].0@)
                && overrides_map(pairs)[pairs[i].0@] == pairs[i].1,
        forall|k: Seq<char>|
            #[trigger] overrides_map(pairs).contains_key(k) ==> exists|i: int|
                0 <= i < pairs.len() && #[trigger] pairs[i].0@ == k,
    decreases pairs.len(),
{
    if pairs.len() > 0 {
        let init = pairs.drop_last();
        assert(distinct_keys(init));
        lemma_overrides_map(init);
        assert forall|i: int| 0 <= i < pairs.len() implies #[trigger] overrides_map(
            pairs,
        ).contains_key(pairs[i].0@) && overrides_map(pairs)[pairs[i].0@] == pairs[i].1 by {
            if i < pairs.len() - 1 {
                assert(init[i] == pairs[i]);
                assert(overrides_map(init).contains_key(init[i].0@));
                assert(pairs[i].0@ != pairs[pairs.len() - 1].0@);
            }
        }
        assert forall|k: Seq<char>| #[trigger] overrides_map(pairs).contains_key(k) implies exists|
            i: int,
        | 0 <= i < pairs.len() && #[trigger] pairs[i].0@ == k by {
            if k != pairs.last().0@ {
                assert(overrides_map(init).contains_key(k));
                let i = choose|i: int| 0 <= i < init.len() && #[trigger] init[i].0@ == k;
                assert(pairs[i] == init[i]);
            }
        }
    }
}

/// The index of the pair for `key`, if there is one.
fn find_key(pairs: &Vec<(String, bool)>, key: &str) -> (res: Option<usize>)
    ensures
        match res {
            Some(j) => j < pairs@.len() && pairs@[j as int].0@ == key@,
            None => forall|k: int| 0 <= k < pairs@.len() ==> #[trigger] pairs@[k].0@ != key@,
        },
{
    let mut j: usize = 0;
    while j < pairs.len()
        invariant
            j <= pairs@.len(),
            forall|k: int| 0 <= k < j ==> #[trigger] pairs@[k].0@ != key@,
        decreases pairs.len() - j,
    {
        if str_eq(pairs[j].0.as_str(), key) {
            return Some(j);
        }
        j = j + 1;
    }
    None
}

impl Clone for Config {
    fn clone(&self) -> (copy: Self)
        ensures
            copy.overrides_view() == self.overrides_view(),
    {
        proof {
            use_type_invariant(self);
        }
        let mut pairs: Vec<(String, bool)> = Vec::new();
        let mut i: usize = 0;
        while i < self.rule_overrides.len()
            invariant
                i <= self.rule_overrides@.len(),
                distinct_keys(self.rule_overrides@),
                pairs@.len() == i,
                forall|k: int| 0 <= k < i ==> #[trigger] pairs@[k].0@ == self.rule_overrides@[k].0@
                    && pairs@[k].1 == self.rule_overrides@[k].1,
            decreases self.rule_overrides.len() - i,
        {
            pairs.push((self.rule_overrides[i].0.clone(), self.rule_overrides[i].1));
            i = i + 1;
        }
        proof {
            assert(distinct_keys(pairs@)) by {
                assert forall|a: int, b: int|
                    0 <= a < pairs@.len() && 0 <= b < pairs@.len() && a != b implies #[trigger] pairs@[a].0@
                    != #[trigger] pairs@[b].0@ by {
                    assert(self.rule_overrides@[a].0@ != self.rule_overrides@[b].0@);
                }
            }
            lemma_overrides_map(pairs@);
            lemma_overrides_map(self.rule_overrides@);
            assert(overrides_map(pairs@) =~= overrides_map(self.rule_overrides@)) by {
                assert forall|k: Seq<char>| #[trigger] overrides_map(pairs@).contains_key(k)
                    == overrides_map(self.rule_overrides@).contains_key(k) by {
                    if overrides_map(pairs@).contains_key(k) {
                        let a = choose|a: int| 0 <= a < pairs@.len() && #[trigger] pairs@[a].0@ == k;
                        assert(self.rule_overrides@[a].0@ == k);
                    }
                    if overrides_map(self.rule_overrides@).contains_key(k) {
                        let a = choose|a: int|
                            0 <= a < self.rule_overrides@.len() && #[trigger] self.rule_overrides@[a].0@
                                == k;
                        assert(pairs@[a].0@ == k);
                    }
                }
                assert forall|k: Seq<char>| #[trigger] overrides_map(pairs@).contains_key(k)
                    implies overrides_map(pairs@)[k] == overrides_map(self.rule_overrides@)[k] by {
                    let a = choose|a: int| 0 <= a < pairs@.len() && #[trigger] pairs@[a].0@ == k;
                    assert(self.rule_overrides@[a].0@ == k);
                }
            }
        }
        Config { rule_overrides: pairs }
    }
}

impl Config {
    #[verifier::type_invariant]
    spec fn keys_distinct(self) -> bool {
        distinct_keys(self.rule_overrides@)
    }

    /// The switches of this configuration, by rule identifier.
    pub closed spec fn overrides_view(self) -> Map<Seq<char>, bool> {
        overrides_map(self.rule_overrides@)
    }

    /// A configuration with the switches of `overrides`; a later pair for the
    /// same identifier wins.
    pub fn from_rule_overrides(overrides: Vec<(String, bool)>) -> (config: Self)
        ensures
            config.overrides_view() == overrides_map(overrides@),
    {
        let mut pairs: Vec<(String, bool)> = Vec::new();
        let mut i: usize = 0;
        while i < overrides.len()
            invariant
                i <= overrides@.len(),
                distinct_keys(pairs@),
                overrides_map(pairs@) == overrides_map(overrides@.take(i as int)),
            decreases overrides.len() - i,
        {
            let key = overrides[i].0.clone();
            let value = overrides[i].1;
            proof {
                lemma_overrides_map(pairs@);
                assert(overrides@.take(i + 1).drop_last() =~= overrides@.take(i as int));
            }
            let ghost old_pairs = pairs@;
            if let Some(j) = find_key(&pairs, key.as_str()) {
                pairs.set(j, (key, value));
                proof {
                    assert(distinct_keys(pairs@)) by {
                        assert forall|a: int, b: int|
                            0 <= a < pairs@.len() && 0 <= b < pairs@.len() && a != b
                                implies #[trigger] pairs@[a].0@ != #[trigger] pairs@[b].0@ by {
                            assert(pairs@[a].0@ == old_pairs[a].0@);
                            assert(pairs@[b].0@ == old_pairs[b].0@);
                            assert(old_pairs[a].0@ != old_pairs[b].0@);
                        }
                    }
                    lemma_overrides_map(pairs@);
                    assert(overrides_map(pairs@) =~= overrides_map(old_pairs).insert(
                        key@,
                        value,
                    )) by {
                        assert forall|k: Seq<char>| #[trigger] overrides_map(
                            pairs@,
                        ).contains_key(k) == overrides_map(old_pairs).insert(
                            key@,
                            value,
                        ).contains_key(k) by {
                            if overrides_map(pairs@).contains_key(k) {
                                let a = choose|a: int|
                                    0 <= a < pairs@.len() && #[trigger] pairs@[a].0@ == k;
                                if a != j {
                                    assert(old_pairs[a] == pairs@[a]);
                                }
                            }
                            if overrides_map(old_pairs).contains_key(k) {
                                let a = choose|a: int|
                                    0 <= a < old_pairs.len() && #[trigger] old_pairs[a].0@ == k;
                                if a != j {
                                    assert(old_pairs[a] == pairs@[a]);
                                }
                            }
                        }
                        assert forall|k: Seq<char>| #[trigger] overrides_map(
                            pairs@,
                        ).contains_key(k) implies overrides_map(pairs@)[k] == overrides_map(
                            old_pairs,
                        ).insert(key@, value)[k] by {
                            let a = choose|a: int|
                                0 <= a < pairs@.len() && #[trigger] pairs@[a].0@ == k;
                            if a != j {
                                assert(old_pairs[a] == pairs@[a]);
                            }
                        }
                    }
                }
            } else {
                pairs.push((key, value));
                proof {
                    assert(distinct_keys(pairs@)) by {
                        assert forall|a: int, b: int|
                            0 <= a < pairs@.len() && 0 <= b < pairs@.len() && a != b
                                implies #[trigger] pairs@[a].0@ != #[trigger] pairs@[b].0@ by {
                            if a < old_pairs.len() {
                                assert(pairs@[a] == old_pairs[a]);
                                assert(old_pairs[a].0@ != key@);
                            }
                            if b < old_pairs.len() {
                                assert(pairs@[b] == old_pairs[b]);
                                assert(old_pairs[b].0@ != key@);
                            }
                            if a < old_pairs.len() && b < old_pairs.len() {
                                assert(old_pairs[a].0@ != old_pairs[b].0@);
                            }
                        }
                    }
                    assert(pairs@.drop_last() =~= old_pairs);
                }
            }
            i = i + 1;
        }
        assert(overrides@.take(i as int) =~= overrides@);
        Config { rule_overrides: pairs }
    }

    /// Whether rule `rule_id` is on: as its switch says, or `default_enabled`
    /// when the configuration has no switch for it.
    pub fn is_rule_enabled(&self, rule_id: &str, default_enabled: bool) -> (enabled: bool)
        ensures
            enabled == if self.overrides_view().contains_key(rule_id@) {
                self.overrides_view()[rule_id@]
            } else {
                default_enabled
            },
    {
        proof {
            use_type_invariant(self);
            lemma_overrides_map(self.rule_overrides@);
        }
        let mut i: usize = 0;
        while i < self.rule_overrides.len()
            invariant
                i <= self.rule_overrides@.len(),
                distinct_keys(self.rule_overrides@),
                forall|k: int| 0 <= k < i ==> #[trigger] self.rule_overrides@[k].0@ != rule_id@,
            decreases self.rule_overrides.len() - i,
        {
            if str_eq(self.rule_overrides[i].0.as_str(), rule_id) {
                proof {
                    lemma_overrides_map(self.rule_overrides@);
                }
                return self.rule_overrides[i].1;
            }
            i = i + 1;
        }
        default_enabled
    }

    /// The switches, one pair per identifier.
    pub fn overrides(&self) -> (pairs: &Vec<(String, bool)>)
        ensures
            overrides_map(pairs@) == self.overrides_view(),
            distinct_keys(pairs@),
    {
        proof {
            use_type_invariant(self);
        }
        &self.rule_overrides
    }
}

impl Default for Config {
    /// A configuration without switches: every rule keeps its default.
    fn default() -> (config: Self)
        ensures
            config.overrides_view() == Map::<Seq<char>, bool>::empty(),
    {
        Config { rule_overrides: Vec::new() }
    }
}

} // verus!
