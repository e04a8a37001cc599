//! The user configuration: shortcuts and directory names to ignore.
//!
//! Reading and writing the configuration file is done by the caller; this
//! module holds its contents and the rules on them.

use vstd::prelude::*;

use crate::paths::{path_join, path_pushed};
use crate::text::strings_view;

verus! {

/// User-defined configuration.
pub struct Config {
    /// User shortcuts used within search queries, as (name, path) pairs.
    pub shortcuts: Vec<(String, String)>,
    /// Directory names to ignore when fuzzy searching.
    pub ignore: Vec<String>,
}

/// The characters of (name, path) pairs.
pub open spec fn pairs_view(v: Seq<(String, String)>) -> Seq<(Seq<char>, Seq<char>)> {
    v.map_values(|p: (String, String)| (p.0@, p.1@))
}

/// No name occurs twice among the pairs.
pub open spec fn keys_distinct(v: Seq<(Seq<char>, Seq<char>)>) -> bool {
    forall|i: int, j: int| 0 <= i < j < v.len() ==> #[trigger] v[i].0 != #[trigger] v[j].0
}

/// No element occurs twice.
pub open spec fn distinct(v: Seq<Seq<char>>) -> bool {
    forall|i: int, j: int| 0 <= i < j < v.len() ==> #[trigger] v[i] != #[trigger] v[j]
}

/// Some pair has the name `k`.
pub open spec fn has_name(v: Seq<(Seq<char>, Seq<char>)>, k: Seq<char>) -> bool {
    exists|i: int| 0 <= i < v.len() && v[i].0 == k
}

/// The pair at `i` is the first with its name.
pub open spec fn first_with_name(v: Seq<(Seq<char>, Seq<char>)>, i: int) -> bool {
    forall|l: int| 0 <= l < i ==> v[l].0 != v[i].0
}

/// The map from name to path that the pairs describe.
pub open spec fn pairs_map(v: Seq<(Seq<char>, Seq<char>)>) -> Map<Seq<char>, Seq<char>>
    decreases v.len(),
{
    if v.len() == 0 {
        Map::empty()
    } else {
        pairs_map(v.drop_last()).insert(v.last().0, v.last().1)
    }
}

/// The mathematical value of a [`Config`].
pub struct ConfigView {
    pub shortcuts: Map<Seq<char>, Seq<char>>,
    pub ignore: Set<Seq<char>>,
}

impl View for Config {
    type V = ConfigView;

    open spec fn view(&self) -> ConfigView {
        ConfigView {
            shortcuts: pairs_map(pairs_view(self.shortcuts@)),
            ignore: strings_view(self.ignore@).to_set(),
        }
    }
}

/// The directory names ignored by default.
pub open spec fn default_ignores() -> Set<Seq<char>> {
    set![seq!['.', 'g', 'i', 't']]
}

/// The directory names ignored by default on Windows.
pub open spec fn windows_default_ignores() -> Set<Seq<char>> {
    set![".git"@, "Program Files"@, "Program Files (x86)"@, "Temp"@]
}

proof fn lemma_pairs_map_lookup(v: Seq<(Seq<char>, Seq<char>)>, i: int)
    requires
        keys_distinct(v),
        0 <= i < v.len(),
    ensures
        pairs_map(v).contains_key(v[i].0),
        pairs_map(v)[v[i].0] == v[i].1,
    decreases v.len(),
{
    if i < v.len() - 1 {
        assert(v.drop_last()[i] == v[i]);
        lemma_pairs_map_lookup(v.drop_last(), i);
        assert(v[i].0 != v[v.len() - 1].0);
    }
}

proof fn lemma_pairs_map_absent(v: Seq<(Seq<char>, Seq<char>)>, k: Seq<char>)
    requires
        forall|i: int| 0 <= i < v.len() ==> v[i].0 != k,
    ensures
        !pairs_map(v).contains_key(k),
    decreases v.len(),
{
    if v.len() > 0 {
        lemma_pairs_map_absent(v.drop_last(), k);
    }
}

impl Config {
    /// Pairs and ignores are each free of repetitions.
    pub open spec fn wf(&self) -> bool {
        &&& keys_distinct(pairs_view(self.shortcuts@))
        &&& distinct(strings_view(self.ignore@))
    }

    /// The configuration used when the user has none: no shortcuts, and the
    /// default ignored names.
    pub fn new() -> (res: Self)
        ensures
            res.wf(),
            res@.shortcuts == Map::<Seq<char>, Seq<char>>::empty(),
            res@.ignore == default_ignores(),
    {
        proof {
            reveal_strlit(".git");
            assert(".git"@ =~= seq!['.', 'g', 'i', 't']);
        }
        let mut ignore: Vec<String> = Vec::new();
        ignore.push(String::from_str(".git"));
        let res = Config { shortcuts: Vec::new(), ignore };
        assert(pairs_view(res.shortcuts@) =~= Seq::empty());
        assert(strings_view(res.ignore@) =~= seq![seq!['.', 'g', 'i', 't']]);
        assert(res@.ignore =~= default_ignores()) by {
            let s = strings_view(res.ignore@);
            assert(s.to_set().contains(s[0]));
            assert forall|x| s.to_set().contains(x) implies x == s[0] by {
                let j = choose|j: int| 0 <= j < s.len() && s[j] == x;
            }
        }
        res
    }

    /// The configuration used on Windows when the user has none: no
    /// shortcuts, and the default ignored names of Windows.
    pub fn new_windows() -> (res: Self)
        ensures
            res.wf(),
            res@.shortcuts == Map::<Seq<char>, Seq<char>>::empty(),
            res@.ignore == windows_default_ignores(),
    {
        proof {
            reveal_strlit(".git");
            reveal_strlit("Program Files");
            reveal_strlit("Program Files (x86)");
            reveal_strlit("Temp");
        }
        let mut ignore: Vec<String> = Vec::new();
        ignore.push(String::from_str(".git"));
        ignore.push(String::from_str("Program Files"));
        ignore.push(String::from_str("Program Files (x86)"));
        ignore.push(String::from_str("Temp"));
        let res = Config { shortcuts: Vec::new(), ignore };
        let ghost s = strings_view(res.ignore@);
        assert(pairs_view(res.shortcuts@) =~= Seq::empty());
        assert(s =~= seq![".git"@, "Program Files"@, "Program Files (x86)"@, "Temp"@]);
        assert(s[0][0] != s[3][0]);
        assert(s[1].len() != s[0].len() && s[1].len() != s[2].len() && s[1].len() != s[3].len());
        assert(s[2].len() != s[0].len() && s[2].len() != s[3].len());
        assert(distinct(s));
        assert(res@.ignore =~= windows_default_ignores()) by {
            assert(s.to_set().contains(s[0]) && s.to_set().contains(s[1]));
            assert(s.to_set().contains(s[2]) && s.to_set().contains(s[3]));
            assert forall|x| s.to_set().contains(x) implies windows_default_ignores().contains(x) by {
                let j = choose|j: int| 0 <= j < s.len() && s[j] == x;
            }
        }
        res
    }

    /// A configuration built from loaded entries, keeping the first
    /// occurrence of each shortcut name and of each ignored name.
    pub fn from_entries(shortcuts: Vec<(String, String)>, ignore: Vec<String>) -> (res: Self)
        ensures
            res.wf(),
            forall|k: Seq<char>| #[trigger]
                res@.shortcuts.contains_key(k) <==> has_name(pairs_view(shortcuts@), k),
            forall|i: int|
                0 <= i < shortcuts@.len() && first_with_name(pairs_view(shortcuts@), i)
                    ==> res@.shortcuts[#[trigger] shortcuts@[i].0@] == shortcuts@[i].1@,
            res@.ignore == strings_view(ignore@).to_set(),
    {
        let ghost sv = pairs_view(shortcuts@);
        let mut kept: Vec<(String, String)> = Vec::new();
        let mut i: usize = 0;
        while i < shortcuts.len()
            invariant
                i <= shortcuts@.len(),
                sv == pairs_view(shortcuts@),
                keys_distinct(pairs_view(kept@)),
                forall|m: int| #![trigger pairs_view(kept@)[m]]
                    0 <= m < kept@.len() ==> exists|j: int|
                        0 <= j < i && #[trigger] first_with_name(sv, j) && pairs_view(kept@)[m]
                            == sv[j],
                forall|j: int| 0 <= j < i ==> has_name(pairs_view(kept@), #[trigger] sv[j].0),
            decreases shortcuts@.len() - i,
        {
            let name = &shortcuts[i].0;
            assert(name@ == sv[i as int].0);
            let mut found = false;
            let mut m: usize = 0;
            while m < kept.len()
                invariant
                    m <= kept@.len(),
                    found ==> has_name(pairs_view(kept@), name@),
                    !found ==> forall|q: int| 0 <= q < m ==> pairs_view(kept@)[q].0 != name@,
                decreases kept@.len() - m,
            {
                if string_eq_str(&kept[m].0, name.as_str()) {
                    found = true;
                    assert(pairs_view(kept@)[m as int].0 == name@);
                }
                m = m + 1;
            }
            let ghost before = kept@;
            if !found {
                let pair = (shortcuts[i].0.clone(), shortcuts[i].1.clone());
                kept.push(pair);
                proof {
                    let bv = pairs_view(before);
                    let kv = pairs_view(kept@);
                    assert(kv =~= bv.push(sv[i as int]));
                    assert(first_with_name(sv, i as int)) by {
                        assert forall|l: int| 0 <= l < i implies sv[l].0 != sv[i as int].0 by {
                            assert(has_name(bv, sv[l].0));
                        }
                    }
                    assert forall|m: int| #![trigger kv[m]] 0 <= m < kv.len() implies exists|j: int|
                        0 <= j < i + 1 && #[trigger] first_with_name(sv, j) && kv[m] == sv[j] by {
                        if m < bv.len() {
                            assert(kv[m] == bv[m]);
                        } else {
                            assert(kv[m] == sv[i as int]);
                        }
                    }
                    assert forall|j: int| 0 <= j < i + 1 implies has_name(kv, #[trigger] sv[j].0) by {
                        if j < i {
                            assert(has_name(bv, sv[j].0));
                            let q = choose|q: int| 0 <= q < bv.len() && bv[q].0 == sv[j].0;
                            assert(kv[q] == bv[q]);
                        } else {
                            assert(kv[bv.len() as int].0 == sv[j].0);
                        }
                    }
                }
            }
            i = i + 1;
        }
        let mut kept_ignore: Vec<String> = Vec::new();
        let mut k: usize = 0;
        while k < ignore.len()
            invariant
                k <= ignore@.len(),
                distinct(strings_view(kept_ignore@)),
                strings_view(kept_ignore@).to_set() == strings_view(ignore@.take(k as int)).to_set(),
            decreases ignore@.len() - k,
        {
            let ghost before = kept_ignore@;
            let ghost x = ignore@[k as int]@;
            let present = contains_name(&kept_ignore, ignore[k].as_str());
            if !present {
                kept_ignore.push(ignore[k].clone());
                assert(strings_view(kept_ignore@) =~= strings_view(before).push(x));
            }
            proof {
                let a = strings_view(ignore@.take(k as int));
                let b = strings_view(before);
                assert(strings_view(ignore@.take(k + 1)) =~= a.push(x));
                a.lemma_push_to_set_commute(x);
                b.lemma_push_to_set_commute(x);
                if present {
                    assert(b.to_set().insert(x) =~= b.to_set());
                }
            }
            k = k + 1;
        }
        assert(ignore@.take(ignore@.len() as int) =~= ignore@);
        let res = Config { shortcuts: kept, ignore: kept_ignore };
        proof {
            let kv = pairs_view(res.shortcuts@);
            assert forall|key: Seq<char>| #[trigger]
                res@.shortcuts.contains_key(key) <==> has_name(sv, key) by {
                if has_name(sv, key) {
                    let j = choose|j: int| 0 <= j < sv.len() && sv[j].0 == key;
                    assert(has_name(kv, sv[j].0));
                    let m = choose|m: int| 0 <= m < kv.len() && kv[m].0 == sv[j].0;
                    lemma_pairs_map_lookup(kv, m);
                } else {
                    assert forall|m: int| 0 <= m < kv.len() implies kv[m].0 != key by {
                        let j = choose|j: int| 0 <= j < sv.len() && #[trigger] first_with_name(sv, j) && kv[m] == sv[j];
                    }
                    lemma_pairs_map_absent(kv, key);
                }
            }
            assert forall|i: int|
                0 <= i < shortcuts@.len() && first_with_name(sv, i)
                    implies res@.shortcuts[#[trigger] shortcuts@[i].0@] == shortcuts@[i].1@ by {
                assert(sv[i].0 == shortcuts@[i].0@ && sv[i].1 == shortcuts@[i].1@);
                assert(has_name(kv, sv[i].0));
                let m = choose|m: int| 0 <= m < kv.len() && kv[m].0 == sv[i].0;
                let j = choose|j: int| 0 <= j < sv.len() && #[trigger] first_with_name(sv, j) && kv[m] == sv[j];
                if j < i {
                    assert(sv[j].0 != sv[i].0);
                } else if i < j {
                    assert(sv[i].0 != sv[j].0);
                }
                lemma_pairs_map_lookup(kv, m);
            }
        }
        res
    }

    /// The path configured for the shortcut `name`, if any.
    pub fn shortcut(&self, name: &str) -> (res: Option<&String>)
        requires
            self.wf(),
        ensures
            match res {
                Some(p) => self@.shortcuts.contains_key(name@) && self@.shortcuts[name@] == p@,
                None => !self@.shortcuts.contains_key(name@),
            },
    {
        let mut i: usize = 0;
        while i < self.shortcuts.len()
            invariant
                i <= self.shortcuts@.len(),
                self.wf(),
                forall|j: int| 0 <= j < i ==> pairs_view(self.shortcuts@)[j].0 != name@,
            decreases self.shortcuts@.len() - i,
        {
            if string_eq_str(&self.shortcuts[i].0, name) {
                proof {
                    lemma_pairs_map_lookup(pairs_view(self.shortcuts@), i as int);
                }
                return Some(&self.shortcuts[i].1);
            }
            i = i + 1;
        }
        proof {
            lemma_pairs_map_absent(pairs_view(self.shortcuts@), name@);
        }
        None
    }

    /// Whether `name` is an ignored directory name.
    pub fn ignores(&self, name: &str) -> (res: bool)
        ensures
            res == self@.ignore.contains(name@),
    {
        contains_name(&self.ignore, name)
    }
}

/// Compares a string with a string slice.
pub fn string_eq_str(a: &String, b: &str) -> (res: bool)
    ensures
        res == (a@ == b@),
{
    let n = a.as_str().unicode_len();
    if n != b.unicode_len() {
        return false;
    }
    let mut i: usize = 0;
    while i < n
        invariant
            n == a@.len() == b@.len(),
            i <= n,
            forall|j: int| 0 <= j < i ==> a@[j] == b@[j],
        decreases n - i,
    {
        if a.as_str().get_char(i) != b.get_char(i) {
            return false;
        }
        i = i + 1;
    }
    assert(a@ =~= b@);
    true
}

/// Whether `name` is among `names`.
pub fn contains_name(names: &Vec<String>, name: &str) -> (res: bool)
    ensures
        res == strings_view(names@).contains(name@),
        res == strings_view(names@).to_set().contains(name@),
{
    let mut i: usize = 0;
    while i < names.len()
        invariant
            i <= names@.len(),
            forall|j: int| 0 <= j < i ==> names@[j]@ != name@,
        decreases names@.len() - i,
    {
        if string_eq_str(&names[i], name) {
            assert(strings_view(names@)[i as int] == name@);
            return true;
        }
        i = i + 1;
    }
    proof {
        if strings_view(names@).contains(name@) {
            let j = choose|j: int| 0 <= j < names@.len() && strings_view(names@)[j] == name@;
            assert(names@[j]@ == name@);
        }
    }
    false
}

/// Where the configuration file lives: `config.json` in the `warp-to`
/// directory under the user's configuration directory (the value of
/// `XDG_CONFIG_HOME`, or `~/.config` where that is unset).
pub open spec fn config_path_of(config_home: Option<Seq<char>>) -> Seq<char> {
    let base = match config_home {
        Some(d) => d,
        None => seq!['~', '/', '.', 'c', 'o', 'n', 'f', 'i', 'g'],
    };
    path_pushed(
        path_pushed(base, seq!['w', 'a', 'r', 'p', '-', 't', 'o']),
        seq!['c', 'o', 'n', 'f', 'i', 'g', '.', 'j', 's', 'o', 'n'],
    )
}

/// Where the configuration file lives on Windows: `config.json` in the
/// `warp-to` directory under the value of `APPDATA`; an error where that is
/// unset.
pub open spec fn windows_config_path_of(app_data: Option<Seq<char>>) -> Result<Seq<char>, Seq<char>> {
    match app_data {
        Some(d) => Ok(path_pushed(path_pushed(d, "warp-to"@), "config.json"@)),
        None => Err("Failed to find APPDATA directory to save config into."@),
    }
}

/// The configuration file's path on Windows, given the value of `APPDATA`.
pub fn get_windows_config_path(app_data: Option<String>) -> (res: Result<String, String>)
    ensures
        crate::paths::text_result_view(res) == windows_config_path_of(crate::paths::opt_view(app_data)),
{
    match app_data {
        Some(d) => {
            let dir = path_join(d.as_str(), "warp-to");
            Ok(path_join(dir.as_str(), "config.json"))
        },
        None => Err(String::from_str("Failed to find APPDATA directory to save config into.")),
    }
}

/// The configuration file's path, given the value of `XDG_CONFIG_HOME`.
pub fn get_config_path(config_home: Option<String>) -> (res: String)
    ensures
        res@ == config_path_of(crate::paths::opt_view(config_home)),
{
    proof {
        reveal_strlit("~/.config");
        reveal_strlit("warp-to");
        reveal_strlit("config.json");
        assert("~/.config"@ =~= seq!['~', '/', '.', 'c', 'o', 'n', 'f', 'i', 'g']);
        assert("warp-to"@ =~= seq!['w', 'a', 'r', 'p', '-', 't', 'o']);
        assert("config.json"@ =~= seq!['c', 'o', 'n', 'f', 'i', 'g', '.', 'j', 's', 'o', 'n']);
    }
    let base = match config_home {
        Some(d) => d,
        None => String::from_str("~/.config"),
    };
    let dir = path_join(base.as_str(), "warp-to");
    path_join(dir.as_str(), "config.json")
}

} // verus!
