use crate::error::ConversionError;
use vstd::prelude::*;
use vstd::string::StringExecFns;

verus! {

/// The views of a list of string slices.
pub open spec fn str_views(v: Seq<&str>) -> Seq<Seq<char>> {
    v.map_values(|s: &str| s@)
}

/// The views of a list of owned strings.
pub open spec fn string_views(v: Seq<String>) -> Seq<Seq<char>> {
    v.map_values(|s: String| s@)
}

/// The alias list of a unit: the given aliases, with the canonical name
/// appended when it is not among them already.
pub open spec fn canonical_aliases(name: Seq<char>, aliases: Seq<Seq<char>>) -> Seq<Seq<char>> {
    if aliases.contains(name) {
        aliases
    } else {
        aliases.push(name)
    }
}

/// The items joined with ", " between neighbours.
pub open spec fn comma_join(items: Seq<Seq<char>>) -> Seq<char>
    decreases items.len(),
{
    if items.len() == 0 {
        Seq::empty()
    } else if items.len() == 1 {
        items[0]
    } else {
        comma_join(items.drop_last()) + ", "@ + items.last()
    }
}

/// The aliases other than `name`, in order.
pub open spec fn other_aliases(name: Seq<char>, aliases: Seq<Seq<char>>) -> Seq<Seq<char>>
    decreases aliases.len(),
{
    if aliases.len() == 0 {
        Seq::empty()
    } else {
        let rest = other_aliases(name, aliases.drop_last());
        if aliases.last() == name {
            rest
        } else {
            rest.push(aliases.last())
        }
    }
}

/// `name (alias1, alias2, ...)` over the aliases other than the name, or
/// the bare name when it has no other alias.
pub open spec fn listing_line(name: Seq<char>, aliases: Seq<Seq<char>>) -> Seq<char> {
    let others = other_aliases(name, aliases);
    if others.len() == 0 {
        name
    } else {
        name + " ("@ + comma_join(others) + ")"@
    }
}

/// A measurement unit: its canonical name, the aliases it answers to, and
/// whether it only links other units and stays out of listings.
pub struct Unit {
    name: String,
    aliases: Vec<String>,
    intermediate: bool,
}

impl Unit {
    pub closed spec fn spec_name(&self) -> Seq<char> {
        self.name@
    }

    pub closed spec fn spec_aliases(&self) -> Seq<Seq<char>> {
        string_views(self.aliases@)
    }

    pub closed spec fn spec_intermediate(&self) -> bool {
        self.intermediate
    }

    /// A unit as `new` builds it: a non-empty name among its aliases, and no
    /// empty alias.
    pub open spec fn valid(&self) -> bool {
        &&& self.spec_name().len() > 0
        &&& self.spec_aliases().contains(self.spec_name())
        &&& forall|i: int|
            0 <= i < self.spec_aliases().len() ==> #[trigger] self.spec_aliases()[i].len() > 0
    }

    /// Builds a unit, adding the name to its aliases when it is not there.
    /// Fails on an empty name first, then on any empty alias.
    pub fn new(name: &str, aliases: Vec<&str>, intermediate: bool) -> (r: Result<
        Unit,
        ConversionError,
    >)
        ensures
            name@.len() == 0 ==> r matches Err(ConversionError::EmptyUnitName),
            name@.len() > 0 && str_views(aliases@).contains(Seq::empty()) ==> r matches Err(
                ConversionError::EmptyAlias,
            ),
            name@.len() > 0 && !str_views(aliases@).contains(Seq::empty()) ==> {
                &&& r is Ok
                &&& r->Ok_0.spec_name() == name@
                &&& r->Ok_0.spec_aliases() == canonical_aliases(name@, str_views(aliases@))
                &&& r->Ok_0.spec_intermediate() == intermediate
                &&& r->Ok_0.valid()
            },
    {
        if name.is_empty() {
            return Err(ConversionError::EmptyUnitName);
        }
        let n = aliases.len();
        let mut i: usize = 0;
        while i < n
            invariant
                n == aliases@.len(),
                i <= n,
                name@.len() > 0,
                forall|j: int| 0 <= j < i ==> #[trigger] aliases@[j]@.len() > 0,
            decreases n - i,
        {
            if aliases[i].is_empty() {
                proof {
                    assert(str_views(aliases@)[i as int] == Seq::<char>::empty());
                }
                return Err(ConversionError::EmptyAlias);
            }
            i = i + 1;
        }
        proof {
            if str_views(aliases@).contains(Seq::empty()) {
                let k = choose|k: int|
                    0 <= k < str_views(aliases@).len() && str_views(aliases@)[k]
                        == Seq::<char>::empty();
                assert(aliases@[k]@.len() > 0);
            }
        }
        let name_s = String::from_str(name);
        let mut owned: Vec<String> = Vec::new();
        let mut found = false;
        let mut i: usize = 0;
        while i < n
            invariant
                n == aliases@.len(),
                i <= n,
                name_s@ == name@,
                string_views(owned@) =~= str_views(aliases@).take(i as int),
                found == str_views(aliases@).take(i as int).contains(name@),
            decreases n - i,
        {
            let a = String::from_str(aliases[i]);
            let same = a == name_s;
            owned.push(a);
            proof {
                let before = str_views(aliases@).take(i as int);
                let after = str_views(aliases@).take(i + 1);
                assert(after =~= before.push(aliases@[i as int]@));
                if same {
                    assert(after[i as int] == name@);
                }
                if after.contains(name@) && !same {
                    let k = choose|k: int| 0 <= k < after.len() && after[k] == name@;
                    assert(before[k] == name@);
                }
                if before.contains(name@) {
                    let k = choose|k: int| 0 <= k < before.len() && before[k] == name@;
                    assert(after[k] == name@);
                }
            }
            found = found || same;
            i = i + 1;
        }
        proof {
            assert(str_views(aliases@).take(n as int) =~= str_views(aliases@));
        }
        if !found {
            owned.push(name_s);
            proof {
                assert(string_views(owned@) =~= str_views(aliases@).push(name@));
            }
        }
        let u = Unit { name: String::from_str(name), aliases: owned, intermediate };
        proof {
            let al = u.spec_aliases();
            if !found {
                assert(al[al.len() - 1] == name@);
            }
            assert(al.contains(name@));
            assert forall|j: int| 0 <= j < al.len() implies #[trigger] al[j].len() > 0 by {
                if j < n {
                    assert(al[j] == aliases@[j]@);
                }
            }
        }
        Ok(u)
    }

    /// The canonical name.
    pub fn name(&self) -> (r: &str)
        ensures
            r@ == self.spec_name(),
    {
        self.name.as_str()
    }

    /// Whether the canonical name is `s`.
    pub fn name_is(&self, s: &String) -> (r: bool)
        ensures
            r == (self.spec_name() == s@),
    {
        self.name == *s
    }

    /// Whether `s` is one of the aliases.
    pub fn answers_to(&self, s: &String) -> (r: bool)
        ensures
            r == self.spec_aliases().contains(s@),
    {
        let n = self.aliases.len();
        let mut i: usize = 0;
        while i < n
            invariant
                n == self.aliases@.len(),
                i <= n,
                forall|j: int| 0 <= j < i ==> #[trigger] self.spec_aliases()[j] != s@,
            decreases n - i,
        {
            if self.aliases[i] == *s {
                proof {
                    assert(self.spec_aliases()[i as int] == s@);
                }
                return true;
            }
            i = i + 1;
        }
        false
    }

    /// The aliases, the canonical name among them.
    pub fn aliases(&self) -> (r: &[String])
        ensures
            string_views(r@) == self.spec_aliases(),
    {
        self.aliases.as_slice()
    }

    /// Whether the unit is hidden from listings.
    pub fn is_intermediate(&self) -> (r: bool)
        ensures
            r == self.spec_intermediate(),
    {
        self.intermediate
    }

    /// The line that lists the unit: `name (alias1, alias2, ...)` over the
    /// aliases other than the name, or the bare name when there are none.
    pub fn format_string(&self) -> (r: String)
        ensures
            r@ == listing_line(self.spec_name(), self.spec_aliases()),
    {
        let ghost views = self.spec_aliases();
        let ghost name = self.spec_name();
        let mut s = self.name.clone();
        let n = self.aliases.len();
        let mut listed: usize = 0;
        let mut i: usize = 0;
        while i < n
            invariant
                n == self.aliases@.len(),
                views == self.spec_aliases(),
                name == self.name@,
                i <= n,
                listed <= i,
                listed == other_aliases(name, views.take(i as int)).len(),
                listed == 0 ==> s@ == name,
                listed > 0 ==> s@ == name + " ("@ + comma_join(
                    other_aliases(name, views.take(i as int)),
                ),
            decreases n - i,
        {
            let ghost before = other_aliases(name, views.take(i as int));
            proof {
                let t = views.take(i + 1);
                assert(t.drop_last() =~= views.take(i as int));
                assert(t.last() == views[i as int]);
                assert(self.aliases@[i as int]@ == views[i as int]);
            }
            if !(self.aliases[i] == self.name) {
                if listed == 0 {
                    s.append(" (");
                } else {
                    s.append(", ");
                }
                s.append(self.aliases[i].as_str());
                proof {
                    let after = before.push(views[i as int]);
                    assert(after.drop_last() =~= before);
                    if before.len() == 0 {
                        assert(comma_join(after) == views[i as int]);
                    }
                }
                listed = listed + 1;
            }
            i = i + 1;
        }
        proof {
            assert(views.take(n as int) =~= views);
        }
        if listed > 0 {
            s.append(")");
        }
        s
    }
}

} // verus!
