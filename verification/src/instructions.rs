use crate::keyedbag::{no_empty_entry, values_in, with_pair, KeyedBag};
use crate::text::texts;
use vstd::prelude::*;
use vstd::std_specs::iter::IteratorSpec;

verus! {

/// The texts among `names` that stand at one of the places `ids`.
pub open spec fn named(names: Seq<Seq<char>>, ids: Set<usize>) -> Set<Seq<char>> {
    Set::new(
        |text: Seq<char>|
            exists|id: usize|
                #[trigger] ids.contains(id) && id < names.len() && names[id as int] == text,
    )
}

/// The texts among the first `n` of `names` that stand at one of the places
/// `ids`, in the order of `names`.
pub open spec fn picked(names: Seq<Seq<char>>, ids: Set<usize>, n: nat) -> Seq<Seq<char>>
    decreases n,
{
    if n == 0 {
        Seq::empty()
    } else {
        let before = picked(names, ids, (n - 1) as nat);
        if ids.contains((n - 1) as usize) {
            before.push(names[n - 1])
        } else {
            before
        }
    }
}

/// What `picked` holds: the names at the places of `ids` below `n`, and each
/// once where `names` holds nothing twice.
pub proof fn lemma_picked(names: Seq<Seq<char>>, ids: Set<usize>, n: nat)
    requires
        n <= names.len(),
        n <= usize::MAX,
    ensures
        forall|text: Seq<char>|
            picked(names, ids, n).contains(text) <==> exists|id: usize| #[trigger]
                ids.contains(id) && id < n && names[id as int] == text,
        names.no_duplicates() ==> picked(names, ids, n).no_duplicates(),
        picked(names, ids, n).len() <= n,
    decreases n,
{
    if n > 0 {
        let m = (n - 1) as nat;
        lemma_picked(names, ids, m);
        let before = picked(names, ids, m);
        let all = picked(names, ids, n);
        assert forall|text: Seq<char>| all.contains(text) implies exists|id: usize| #[trigger]
            ids.contains(id) && id < n && names[id as int] == text by {
            let k = choose|k: int| 0 <= k < all.len() && all[k] == text;
            if k < before.len() {
                assert(before.contains(text));
            } else {
                assert(ids.contains(m as usize));
            }
        }
        assert forall|text: Seq<char>|
            (exists|id: usize| #[trigger] ids.contains(id) && id < n && names[id as int] == text)
            implies all.contains(text) by {
            let id = choose|id: usize| #[trigger]
                ids.contains(id) && id < n && names[id as int] == text;
            if id < m {
                assert(before.contains(text));
                let k = choose|k: int| 0 <= k < before.len() && before[k] == text;
                assert(all[k] == text);
            } else {
                assert(all[all.len() - 1] == text);
            }
        }
        if names.no_duplicates() && ids.contains(m as usize) {
            assert forall|i: int, j: int| 0 <= i < all.len() && 0 <= j < all.len() && i != j
                implies all[i] != all[j] by {
                if i == before.len() || j == before.len() {
                    let other = if i == before.len() {
                        j
                    } else {
                        i
                    };
                    assert(before.contains(before[other]));
                }
            }
        }
    }
}

/// The texts at given places stay the same when the list of texts grows at
/// its end.
pub proof fn lemma_named_stays(shorter: Seq<Seq<char>>, longer: Seq<Seq<char>>, ids: Set<usize>)
    requires
        shorter.len() <= longer.len(),
        longer.take(shorter.len() as int) == shorter,
        forall|id: usize| #[trigger] ids.contains(id) ==> id < shorter.len(),
    ensures
        named(longer, ids) == named(shorter, ids),
{
    assert forall|text: Seq<char>| named(longer, ids).contains(text) <==> named(
        shorter,
        ids,
    ).contains(text) by {
        if named(longer, ids).contains(text) {
            let id = choose|id: usize| #[trigger]
                ids.contains(id) && id < longer.len() && longer[id as int] == text;
            assert(longer.take(shorter.len() as int)[id as int] == text);
        }
        if named(shorter, ids).contains(text) {
            let id = choose|id: usize| #[trigger]
                ids.contains(id) && id < shorter.len() && shorter[id as int] == text;
            assert(longer.take(shorter.len() as int)[id as int] == text);
        }
    }
    assert(named(longer, ids) =~= named(shorter, ids));
}

/// One place more gives one text more: the text that stands there.
pub proof fn lemma_named_grows(names: Seq<Seq<char>>, ids: Set<usize>, id: usize)
    requires
        id < names.len(),
    ensures
        named(names, ids.insert(id)) == named(names, ids).insert(names[id as int]),
{
    let more = ids.insert(id);
    assert forall|text: Seq<char>| named(names, more).contains(text) <==> named(
        names,
        ids,
    ).insert(names[id as int]).contains(text) by {
        if named(names, more).contains(text) {
            let i = choose|i: usize| #[trigger]
                more.contains(i) && i < names.len() && names[i as int] == text;
            if i != id {
                assert(ids.contains(i));
            }
        }
        if named(names, ids).contains(text) {
            let i = choose|i: usize| #[trigger]
                ids.contains(i) && i < names.len() && names[i as int] == text;
            assert(more.contains(i));
        }
        if text == names[id as int] {
            assert(more.contains(id));
        }
    }
    assert(named(names, more) =~= named(names, ids).insert(names[id as int]));
}

/// What an edited listing asks for: for each index, the paths at which the
/// entry with that index is to end up.
///
/// The targets are kept once each in a list, and the bag holds their places
/// in it: integers, which are hashed as the model of hash tables has it.
#[derive(Debug)]
pub struct Instructions {
    /// For each index, the places in `paths` of its targets.
    bag: KeyedBag<usize, usize>,
    /// Every target once, in the order in which they were first named.
    paths: Vec<String>,
}

impl Instructions {
    /// The set of targets of each index that has any.
    pub closed spec fn view(&self) -> Map<usize, Set<Seq<char>>> {
        Map::new(
            |index: usize| self.bag@.contains_key(index),
            |index: usize| named(texts(self.paths@), self.bag@[index]),
        )
    }

    /// The targets of `index`, each once, in the order in which the
    /// instructions hold them; none where the index is not named.
    pub closed spec fn targets_of(&self, index: usize) -> Seq<Seq<char>> {
        picked(texts(self.paths@), values_in(self.bag@, index), self.paths@.len())
    }

    #[verifier::type_invariant]
    spec fn wf(&self) -> bool {
        &&& texts(self.paths@).no_duplicates()
        &&& no_empty_entry(self.bag@)
        &&& forall|index: usize, id: usize|
            self.bag@.contains_key(index) && #[trigger] self.bag@[index].contains(id) ==> id
                < self.paths@.len()
    }

    /// Instructions that name no index: no index has a target, in the set of
    /// its targets or in their order.
    pub fn new() -> (instructions: Self)
        ensures
            instructions@ == Map::<usize, Set<Seq<char>>>::empty(),
            forall|index: usize|
                #[trigger] instructions.targets_of(index) == Seq::<Seq<char>>::empty(),
    {
        let instructions = Instructions { bag: KeyedBag::new(), paths: Vec::new() };
        assert(instructions@ =~= Map::<usize, Set<Seq<char>>>::empty());
        assert forall|index: usize|
            #[trigger] instructions.targets_of(index) == Seq::<Seq<char>>::empty() by {
            assert(instructions.paths@.len() == 0);
        }
        instructions
    }

    /// Adds `path` to the targets of `index`. A target that the index has
    /// already stays once.
    pub fn insert(&mut self, index: usize, path: String)
        ensures
            final(self)@ == with_pair(old(self)@, index, path@),
    {
        proof {
            use_type_invariant(&*self);
        }
        let mut taken = Instructions::new();
        std::mem::swap(self, &mut taken);
        let Instructions { mut bag, mut paths } = taken;
        let ghost old_bag = bag@;
        let ghost old_names = texts(paths@);
        let mut id: usize = 0;
        while id < paths.len() && paths[id] != path
            invariant
                id <= paths.len(),
                texts(paths@) == old_names,
                forall|j: int| 0 <= j < id ==> old_names[j] != path@,
            decreases paths.len() - id,
        {
            id = id + 1;
        }
        if id == paths.len() {
            paths.push(path);
        }
        let ghost names = texts(paths@);
        proof {
            assert(names[id as int] == path@);
            assert(names.take(old_names.len() as int) =~= old_names);
            assert forall|i: int, j: int| 0 <= i < names.len() && 0 <= j < names.len() && i != j
                implies names[i] != names[j] by {
                if i < old_names.len() {
                    assert(names[i] == old_names[i]);
                }
                if j < old_names.len() {
                    assert(names[j] == old_names[j]);
                }
            }
        }
        bag.insert(index, id);
        let result = Instructions { bag, paths };
        proof {
            let wanted = with_pair(old(self)@, index, path@);
            assert(result@.dom() =~= wanted.dom());
            assert forall|k: usize| result@.contains_key(k) implies #[trigger] result@[k]
                == wanted[k] by {
                let old_ids = values_in(old_bag, k);
                assert(named(old_names, Set::<usize>::empty()) =~= Set::<Seq<char>>::empty());
                lemma_named_stays(old_names, names, old_ids);
                if k == index {
                    lemma_named_grows(names, old_ids, id);
                }
            }
            assert(result@ =~= wanted);
        }
        *self = result;
    }

    /// The targets of `index`, each once.
    pub fn targets(&self, index: usize) -> (targets: Vec<String>)
        ensures
            texts(targets@) == self.targets_of(index),
            texts(targets@).no_duplicates(),
            texts(targets@).to_set() == values_in(self@, index),
    {
        proof {
            use_type_invariant(self);
        }
        let ids = self.bag.get(&index);
        let ghost names = texts(self.paths@);
        let mut targets: Vec<String> = Vec::new();
        let count = self.paths.len();
        if !ids.is_empty() {
            let mut id: usize = 0;
            while id < self.paths.len()
                invariant
                    id <= self.paths.len(),
                    names == texts(self.paths@),
                    ids@ == values_in(self.bag@, index),
                    texts(targets@) == picked(names, ids@, id as nat),
                decreases self.paths.len() - id,
            {
                if ids.contains(&id) {
                    let ghost before = texts(targets@);
                    targets.push(self.paths[id].clone());
                    assert(texts(targets@) =~= before.push(names[id as int]));
                }
                id = id + 1;
            }
        } else {
            proof {
                assert(ids@ =~= Set::<usize>::empty());
                Self::lemma_nothing_picked(names, self.paths@.len() as nat);
            }
        }
        proof {
            lemma_picked(names, ids@, names.len());
            let all = texts(targets@);
            assert forall|text: Seq<char>| all.to_set().contains(text) <==> values_in(
                self@,
                index,
            ).contains(text) by {
                if all.contains(text) {
                    let id = choose|id: usize| #[trigger]
                        ids@.contains(id) && id < names.len() && names[id as int] == text;
                    assert(self.bag@.contains_key(index));
                }
                if values_in(self@, index).contains(text) {
                    assert(self@.contains_key(index));
                    let id = choose|id: usize| #[trigger]
                        ids@.contains(id) && id < names.len() && names[id as int] == text;
                    assert(all.contains(text));
                }
            }
            assert(all.to_set() =~= values_in(self@, index));
        }
        targets
    }

    /// Where no place is asked for, nothing is picked.
    proof fn lemma_nothing_picked(names: Seq<Seq<char>>, n: nat)
        ensures
            picked(names, Set::<usize>::empty(), n) == Seq::<Seq<char>>::empty(),
        decreases n,
    {
        if n > 0 {
            Self::lemma_nothing_picked(names, (n - 1) as nat);
        }
    }

    /// An index that the instructions name and that is not below `limit`, if
    /// there is one.
    pub fn index_beyond(&self, limit: usize) -> (found: Option<usize>)
        ensures
            match found {
                Some(index) => self@.contains_key(index) && index >= limit,
                None => forall|index: usize| self@.contains_key(index) ==> index < limit,
            },
    {
        let keys = self.bag.keys();
        let ghost all = keys.remaining();
        for key in it: keys
            invariant
                it.seq() == all,
                all.unref().to_set() == self.bag@.dom(),
                forall|j: int| 0 <= j < it.index() ==> *all[j] < limit,
        {
            if *key >= limit {
                proof {
                    assert(all.unref()[it.index()] == *key);
                    assert(all.unref().to_set().contains(*key));
                }
                return Some(*key);
            }
        }
        proof {
            assert forall|index: usize| self@.contains_key(index) implies index < limit by {
                assert(all.unref().to_set().contains(index));
                let j = choose|j: int| 0 <= j < all.unref().len() && all.unref()[j] == index;
                assert(*all[j] == index);
            }
        }
        None
    }
}

} // verus!
