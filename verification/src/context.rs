//! The substitution context: the variables that a template's placeholders
//! refer to.

use vstd::prelude::*;
use vstd::string::*;
use crate::text::{same_text, texts_of};

verus! {

/// What the local git configuration says about the user. A field is `None`
/// where the configuration does not say.
pub struct Identity {
    pub username: Option<String>,
    pub email: Option<String>,
}

/// The variables of one materialization.
///
/// The four fields `name`, `repository`, `username` and `email` are bound
/// under their own names whenever they are set. `values` binds further keys;
/// where two of its pairs share a key, the later pair counts.
pub struct Context {
    pub name: String,
    pub repository: Option<String>,
    pub username: Option<String>,
    pub email: Option<String>,
    pub values: Vec<(String, String)>,
}

/// The characters of an optional string.
pub open spec fn text_of(s: Option<String>) -> Option<Seq<char>> {
    match s {
        Some(t) => Some(t@),
        None => None,
    }
}

/// Whether `key` names one of the four fields of a context.
pub open spec fn is_reserved(key: Seq<char>) -> bool {
    key == "name"@ || key == "repository"@ || key == "username"@ || key == "email"@
}

/// The value that `pairs` gives to `key`: that of the last pair with this key.
pub open spec fn pairs_lookup(pairs: Seq<(String, String)>, key: Seq<char>) -> Option<Seq<char>>
    decreases pairs.len(),
{
    if pairs.len() == 0 {
        None
    } else if pairs.last().0@ == key {
        Some(pairs.last().1@)
    } else {
        pairs_lookup(pairs.drop_last(), key)
    }
}

/// Whether no two pairs share a key.
pub open spec fn distinct_keys(pairs: Seq<(String, String)>) -> bool {
    forall|i: int, j: int|
        0 <= i < j < pairs.len() ==> (#[trigger] pairs[i]).0@ != (#[trigger] pairs[j]).0@
}

/// Whether no pair has the name of a field as its key.
pub open spec fn no_reserved_keys(pairs: Seq<(String, String)>) -> bool {
    forall|i: int| 0 <= i < pairs.len() ==> !is_reserved((#[trigger] pairs[i]).0@)
}

/// Whether `key` names one of the four fields of a context.
pub fn reserved(key: &String) -> (r: bool)
    ensures
        r == is_reserved(key@),
{
    same_text(key, "name") || same_text(key, "repository") || same_text(key, "username")
        || same_text(key, "email")
}

/// What a lookup finds: a pair with the key and the value where it finds
/// one, and no pair with the key where it finds none.
pub proof fn lemma_lookup_found(pairs: Seq<(String, String)>, key: Seq<char>)
    ensures
        match pairs_lookup(pairs, key) {
            Some(value) => exists|i: int|
                0 <= i < pairs.len() && (#[trigger] pairs[i]).0@ == key && pairs[i].1@ == value,
            None => forall|i: int| 0 <= i < pairs.len() ==> (#[trigger] pairs[i]).0@ != key,
        },
    decreases pairs.len(),
{
    if pairs.len() > 0 {
        let front = pairs.drop_last();
        if pairs.last().0@ == key {
            assert(pairs[pairs.len() - 1].0@ == key);
        } else {
            lemma_lookup_found(front, key);
            match pairs_lookup(front, key) {
                Some(value) => {
                    let i = choose|i: int|
                        0 <= i < front.len() && (#[trigger] front[i]).0@ == key && front[i].1@
                            == value;
                    assert(pairs[i].0@ == key && pairs[i].1@ == value);
                },
                None => {
                    assert forall|i: int| 0 <= i < pairs.len() implies (#[trigger] pairs[i]).0@
                        != key by {
                        if i < front.len() {
                            assert(front[i].0@ != key);
                        }
                    }
                },
            }
        }
    }
}

/// Among pairs with distinct keys, the lookup of a pair's key finds the
/// pair's value.
pub proof fn lemma_lookup_at(pairs: Seq<(String, String)>, i: int)
    requires
        distinct_keys(pairs),
        0 <= i < pairs.len(),
    ensures
        pairs_lookup(pairs, pairs[i].0@) == Some(pairs[i].1@),
    decreases pairs.len(),
{
    if i < pairs.len() - 1 {
        let front = pairs.drop_last();
        assert(pairs[i].0@ != pairs[pairs.len() - 1].0@);
        assert(distinct_keys(front)) by {
            assert forall|a: int, b: int| 0 <= a < b < front.len() implies (#[trigger] front[a]).0@
                != (#[trigger] front[b]).0@ by {
                assert(pairs[a].0@ != pairs[b].0@);
            }
        }
        assert(front[i] == pairs[i]);
        lemma_lookup_at(front, i);
    }
}

/// Where one of the pairs with distinct keys gets a new value, the keys
/// stay distinct, the pair's key is bound to the new value, and every other
/// key is bound as before.
pub proof fn lemma_lookup_update(pairs: Seq<(String, String)>, i: int, pair: (String, String), key: Seq<char>)
    requires
        distinct_keys(pairs),
        0 <= i < pairs.len(),
        pair.0@ == pairs[i].0@,
    ensures
        distinct_keys(pairs.update(i, pair)),
        pairs_lookup(pairs.update(i, pair), key) == (if key == pair.0@ {
            Some(pair.1@)
        } else {
            pairs_lookup(pairs, key)
        }),
{
    let updated = pairs.update(i, pair);
    assert(distinct_keys(updated)) by {
        assert forall|a: int, b: int| 0 <= a < b < updated.len() implies (#[trigger] updated[a]).0@
            != (#[trigger] updated[b]).0@ by {
            assert(pairs[a].0@ != pairs[b].0@);
        }
    }
    if key == pair.0@ {
        lemma_lookup_at(updated, i);
    } else {
        lemma_lookup_found(pairs, key);
        lemma_lookup_found(updated, key);
        match pairs_lookup(pairs, key) {
            Some(value) => {
                let k = choose|k: int|
                    0 <= k < pairs.len() && (#[trigger] pairs[k]).0@ == key && pairs[k].1@ == value;
                assert(updated[k] == pairs[k]);
                lemma_lookup_at(updated, k);
            },
            None => {
                if pairs_lookup(updated, key) is Some {
                    let k = choose|k: int|
                        0 <= k < updated.len() && (#[trigger] updated[k]).0@ == key;
                    assert(pairs[k].0@ == key);
                }
            },
        }
    }
}

/// The index of the pair with the key `key`, if there is one.
fn key_position(pairs: &Vec<(String, String)>, key: &String) -> (r: Option<usize>)
    ensures
        match r {
            Some(i) => i < pairs.len() && pairs@[i as int].0@ == key@,
            None => forall|i: int| 0 <= i < pairs.len() ==> (#[trigger] pairs@[i]).0@ != key@,
        },
{
    let mut i: usize = 0;
    while i < pairs.len()
        invariant
            i <= pairs.len(),
            forall|k: int| 0 <= k < i ==> (#[trigger] pairs@[k]).0@ != key@,
        decreases pairs.len() - i,
    {
        if pairs[i].0 == *key {
            return Some(i);
        }
        i += 1;
    }
    None
}

/// The context of a materialization: the workspace name, the repository's
/// name, the identity as it was found, and the pairs of `values` whose key
/// is not the name of a field. Such a pair is dropped, so that the field
/// wins. A field of the identity that is unset stays unset.
pub fn build(
    name: String,
    repository: Option<String>,
    values: &Vec<(String, String)>,
    identity: Identity,
) -> (context: Context)
    requires
        name@.len() > 0,
    ensures
        context.wf(),
        context.name == name,
        context.repository == repository,
        context.username == identity.username,
        context.email == identity.email,
        forall|key: Seq<char>|
            !is_reserved(key) ==> #[trigger] pairs_lookup(context.values@, key) == pairs_lookup(
                values@,
                key,
            ),
{
    let mut kept: Vec<(String, String)> = Vec::new();
    let mut i: usize = 0;
    assert(values@.take(0) =~= Seq::empty());
    while i < values.len()
        invariant
            i <= values.len(),
            distinct_keys(kept@),
            no_reserved_keys(kept@),
            forall|key: Seq<char>|
                !is_reserved(key) ==> #[trigger] pairs_lookup(kept@, key) == pairs_lookup(
                    values@.take(i as int),
                    key,
                ),
        decreases values.len() - i,
    {
        let ghost before = kept@;
        let ghost seen = values@.take(i as int);
        let ghost next = values@.take(i + 1);
        assert(next.drop_last() == seen);
        assert(next.last() == values@[i as int]);
        if !reserved(&values[i].0) {
            let pair = (values[i].0.clone(), values[i].1.clone());
            match key_position(&kept, &pair.0) {
                Some(k) => {
                    kept.set(k, pair);
                    proof {
                        assert forall|key: Seq<char>| !is_reserved(key) implies #[trigger] pairs_lookup(
                            kept@,
                            key,
                        ) == pairs_lookup(next, key) by {
                            lemma_lookup_update(before, k as int, pair, key);
                            assert(pairs_lookup(before, key) == pairs_lookup(seen, key));
                        }
                        lemma_lookup_update(before, k as int, pair, pair.0@);
                    }
                },
                None => {
                    kept.push(pair);
                    proof {
                        assert(kept@.drop_last() == before);
                        assert forall|key: Seq<char>| !is_reserved(key) implies #[trigger] pairs_lookup(
                            kept@,
                            key,
                        ) == pairs_lookup(next, key) by {
                            assert(pairs_lookup(before, key) == pairs_lookup(seen, key));
                        }
                    }
                },
            }
        } else {
            assert forall|key: Seq<char>| !is_reserved(key) implies #[trigger] pairs_lookup(kept@, key)
                == pairs_lookup(next, key) by {
                assert(pairs_lookup(before, key) == pairs_lookup(seen, key));
            }
        }
        i += 1;
    }
    assert(values@.take(values.len() as int) == values@);
    Context { name, repository, username: identity.username, email: identity.email, values: kept }
}

/// The keys of `values` that are names of fields, in order: the keys of
/// the pairs that `build` drops.
pub open spec fn reserved_keys(values: Seq<(String, String)>) -> Seq<Seq<char>>
    decreases values.len(),
{
    if values.len() == 0 {
        Seq::empty()
    } else if is_reserved(values.last().0@) {
        reserved_keys(values.drop_last()).push(values.last().0@)
    } else {
        reserved_keys(values.drop_last())
    }
}

/// The keys of the pairs of `values` that a context cannot take, because
/// they are names of its fields.
pub fn collisions(values: &Vec<(String, String)>) -> (keys: Vec<String>)
    ensures
        texts_of(keys@) == reserved_keys(values@),
{
    let mut keys: Vec<String> = Vec::new();
    let mut i: usize = 0;
    assert(texts_of(keys@) =~= reserved_keys(values@.take(0)));
    while i < values.len()
        invariant
            i <= values.len(),
            texts_of(keys@) == reserved_keys(values@.take(i as int)),
        decreases values.len() - i,
    {
        let ghost before = keys@;
        assert(values@.take(i + 1).drop_last() == values@.take(i as int));
        if reserved(&values[i].0) {
            let key = values[i].0.clone();
            keys.push(key);
            assert(texts_of(keys@) =~= texts_of(before).push(key@));
        }
        i += 1;
    }
    assert(values@.take(values.len() as int) == values@);
    keys
}

impl Context {
    /// What the context binds `key` to, if anything. A field wins over a
    /// pair of `values` with the field's name, also where the field is unset.
    pub open spec fn value_of(&self, key: Seq<char>) -> Option<Seq<char>> {
        if key == "name"@ {
            Some(self.name@)
        } else if key == "repository"@ {
            text_of(self.repository)
        } else if key == "username"@ {
            text_of(self.username)
        } else if key == "email"@ {
            text_of(self.email)
        } else {
            pairs_lookup(self.values@, key)
        }
    }

    /// The context as a mapping from bound keys to their values.
    pub open spec fn bindings(&self) -> Map<Seq<char>, Seq<char>> {
        Map::new(|key: Seq<char>| self.value_of(key) is Some, |key: Seq<char>| self.value_of(key)->0)
    }

    /// A context is well formed when its name is not empty and `values`
    /// is a mapping that leaves the names of the fields alone.
    pub open spec fn wf(&self) -> bool {
        &&& self.name@.len() > 0
        &&& distinct_keys(self.values@)
        &&& no_reserved_keys(self.values@)
    }

    /// The value bound to `key`, or `None` where the key is unbound.
    pub fn lookup(&self, key: &String) -> (r: Option<&String>)
        ensures
            text_of_ref(r) == self.value_of(key@),
    {
        if same_text(key, "name") {
            Some(&self.name)
        } else if same_text(key, "repository") {
            self.repository.as_ref()
        } else if same_text(key, "username") {
            self.username.as_ref()
        } else if same_text(key, "email") {
            self.email.as_ref()
        } else {
            let mut i: usize = self.values.len();
            assert(self.values@.take(i as int) == self.values@);
            while i > 0
                invariant
                    i <= self.values.len(),
                    self.value_of(key@) == pairs_lookup(self.values@.take(i as int), key@),
                decreases i,
            {
                i -= 1;
                assert(self.values@.take(i + 1).drop_last() == self.values@.take(i as int));
                assert(self.values@.take(i + 1).last() == self.values@[i as int]);
                if self.values[i].0 == *key {
                    return Some(&self.values[i].1);
                }
            }
            None
        }
    }
}

/// Two contexts with the same fields, whose pairs bind every key that is
/// not the name of a field alike, bind every key alike.
pub proof fn lemma_same_bindings(a: Context, b: Context)
    requires
        a.name == b.name,
        a.repository == b.repository,
        a.username == b.username,
        a.email == b.email,
        forall|key: Seq<char>|
            !is_reserved(key) ==> #[trigger] pairs_lookup(a.values@, key) == pairs_lookup(
                b.values@,
                key,
            ),
    ensures
        a.bindings() == b.bindings(),
{
    assert forall|key: Seq<char>| a.value_of(key) == b.value_of(key) by {
        if !is_reserved(key) {
            assert(pairs_lookup(a.values@, key) == pairs_lookup(b.values@, key));
        }
    }
    assert(a.bindings() =~= b.bindings());
}

/// The characters of an optional borrowed string.
pub open spec fn text_of_ref(s: Option<&String>) -> Option<Seq<char>> {
    match s {
        Some(t) => Some(t@),
        None => None,
    }
}

} // verus!
