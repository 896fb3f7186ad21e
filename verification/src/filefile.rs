//! The default names of a Filefile.
use vstd::prelude::*;

verus! {

/// Default names to search for in the current directory.
#[derive(Debug, Clone, Copy, PartialEq, Eq, Structural)]
pub enum FilefileNames {
    YAML,
    JSON,
    TOML,
}

pub open spec fn yaml_name() -> Seq<char> {
    "Filefile.yaml"@
}

pub open spec fn json_name() -> Seq<char> {
    "Filefile.json"@
}

pub open spec fn toml_name() -> Seq<char> {
    "Filefile.toml"@
}

/// The file name of each kind.
pub open spec fn name_of(n: FilefileNames) -> Seq<char> {
    match n {
        FilefileNames::YAML => yaml_name(),
        FilefileNames::JSON => json_name(),
        FilefileNames::TOML => toml_name(),
    }
}

/// The default names, in the order they are searched.
pub open spec fn search_order() -> Seq<Seq<char>> {
    seq![yaml_name(), json_name(), toml_name()]
}

impl FilefileNames {
    /// The file name.
    pub fn as_str(&self) -> (r: &'static str)
        ensures
            r@ == name_of(*self),
    {
        match self {
            FilefileNames::YAML => "Filefile.yaml",
            FilefileNames::JSON => "Filefile.json",
            FilefileNames::TOML => "Filefile.toml",
        }
    }

    /// The name used when none is given: the YAML one.
    #[allow(clippy::should_implement_trait)]
    pub fn default() -> (r: FilefileNames)
        ensures
            r == FilefileNames::YAML,
    {
        FilefileNames::YAML
    }

    /// The default name as a `String`.
    pub fn default_string() -> (r: String)
        ensures
            r@ == yaml_name(),
    {
        "Filefile.yaml".to_string()
    }
}

/// Goes through the default names in their search order.
pub struct FilefileNamesIterator {
    current: Option<FilefileNames>,
}

/// The kind that follows `n` in the search order.
pub open spec fn after(n: FilefileNames) -> Option<FilefileNames> {
    match n {
        FilefileNames::YAML => Some(FilefileNames::JSON),
        FilefileNames::JSON => Some(FilefileNames::TOML),
        FilefileNames::TOML => None,
    }
}

/// The position of `n` in the search order.
pub open spec fn position(n: FilefileNames) -> int {
    match n {
        FilefileNames::YAML => 0,
        FilefileNames::JSON => 1,
        FilefileNames::TOML => 2,
    }
}

impl View for FilefileNamesIterator {
    /// The names still to come.
    type V = Seq<Seq<char>>;

    closed spec fn view(&self) -> Seq<Seq<char>> {
        match self.current {
            Some(n) => search_order().skip(position(n)),
            None => Seq::empty(),
        }
    }
}

impl FilefileNamesIterator {
    /// An iterator over all default names.
    pub fn new() -> (r: Self)
        ensures
            r@ == search_order(),
    {
        let r = Self { current: Some(FilefileNames::YAML) };
        assert(search_order().skip(0) =~= search_order());
        r
    }

    /// The next default name, if any is left.
    pub fn next(&mut self) -> (r: Option<&'static str>)
        ensures
            old(self)@.len() == 0 ==> r is None && final(self)@.len() == 0,
            old(self)@.len() > 0 ==> (r matches Some(s) && s@ == old(self)@[0] && final(self)@
                == old(self)@.drop_first()),
    {
        let current = match self.current {
            Some(c) => c,
            None => return None,
        };
        self.current = match current {
            FilefileNames::YAML => Some(FilefileNames::JSON),
            FilefileNames::JSON => Some(FilefileNames::TOML),
            FilefileNames::TOML => None,
        };
        proof {
            assert(old(self)@[0] == name_of(current));
            assert(final(self)@ =~= old(self)@.drop_first());
        }
        Some(current.as_str())
    }
}

/// The position of the first `true` in `found`, if any.
pub open spec fn first_found(found: Seq<bool>) -> Option<int>
    decreases found.len(),
{
    if found.len() == 0 {
        None
    } else if found[0] {
        Some(0)
    } else {
        match first_found(found.drop_first()) {
            Some(i) => Some(i + 1),
            None => None,
        }
    }
}

proof fn lemma_first_found(found: Seq<bool>, k: int)
    requires
        0 <= k < found.len(),
        found[k],
    ensures
        first_found(found) is Some,
    decreases found.len(),
{
    if k > 0 && !found[0] {
        lemma_first_found(found.drop_first(), k - 1);
    }
}

proof fn lemma_first_found_is_first(found: Seq<bool>)
    ensures
        first_found(found) matches Some(i) ==> 0 <= i < found.len() && found[i] && forall|j: int|
            0 <= j < i ==> !found[j],
    decreases found.len(),
{
    if found.len() > 0 && !found[0] {
        let t = found.drop_first();
        lemma_first_found_is_first(t);
        if let Some(i) = first_found(t) {
            assert forall|j: int| 0 <= j < i + 1 implies !found[j] by {
                if j > 0 {
                    assert(found[j] == t[j - 1]);
                }
            }
        }
    }
}

/// The marks of the default names: the first three of `found`.
pub open spec fn searched(found: Seq<bool>) -> Seq<bool> {
    if found.len() < 3 {
        found
    } else {
        found.take(3)
    }
}

/// The name of the Filefile to read: `given` when there is one, otherwise
/// the first default name, in search order, that `found` marks as present
/// (`found[i]` tells whether the `i`-th default name exists). One of the two
/// must be there: with neither there is no Filefile to read.
pub fn get_filefile_name(given: Option<String>, found: &Vec<bool>) -> (r: String)
    requires
        given is Some || exists|i: int| 0 <= i < found@.len() && i < 3 && #[trigger] found@[i],
    ensures
        given matches Some(g) ==> r@ == g@,
        given is None ==> exists|i: int|
            0 <= i < found@.len() && i < 3 && #[trigger] found@[i] && (forall|j: int|
                0 <= j < i ==> !found@[j]) && r@ == search_order()[i],
{
    if let Some(g) = given {
        return g;
    }
    proof {
        let k = choose|k: int| 0 <= k < found@.len() && k < 3 && #[trigger] found@[k];
        lemma_first_found(searched(found@), k);
    }
    let mut names = FilefileNamesIterator::new();
    let mut i: usize = 0;
    let bound: usize = if found.len() < 3 {
        found.len()
    } else {
        3
    };
    assert(searched(found@).skip(0) =~= searched(found@));
    while i < bound
        invariant
            bound == searched(found@).len(),
            given is None,
            bound <= found@.len(),
            i <= bound <= 3,
            names@ == search_order().skip(i as int),
            first_found(searched(found@)) is Some,
            first_found(searched(found@)) == match first_found(searched(found@).skip(i as int)) {
                Some(j) => Some(j + i),
                None => None,
            },
        decreases bound - i,
    {
        let name = names.next();
        proof {
            let t = searched(found@).skip(i as int);
            assert(t.drop_first() =~= searched(found@).skip(i + 1));
            assert(t[0] == searched(found@)[i as int]);
            assert(names@ =~= search_order().skip(i + 1));
        }
        assert(found@[i as int] == searched(found@)[i as int]);
        if found[i] {
            proof {
                let t = searched(found@).skip(i as int);
                assert(t[0]);
                assert(first_found(t) == Some(0int));
                assert(first_found(searched(found@)) == Some(i as int));
                lemma_first_found_is_first(searched(found@));
                assert forall|j: int| 0 <= j < i implies !found@[j] by {
                    assert(searched(found@)[j] == found@[j]);
                }
            }
            match name {
                Some(n) => return n.to_string(),
                None => {
                    assert(false);
                    return String::new();
                },
            }
        }
        i = i + 1;
    }
    assert(searched(found@).skip(bound as int).len() == 0);
    assert(false);
    String::new()
}

} // verus!
