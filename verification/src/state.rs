//! The source files an editing session has open, by module name.

use vstd::prelude::*;

verus! {

/// The open files: each module name once, with the text last given for it.
pub struct State {
    pub file_map: Vec<(String, String)>,
}

/// The texts of `files` by module name; a later entry wins.
pub open spec fn files_view(files: Seq<(String, String)>) -> Map<Seq<char>, Seq<char>>
    decreases files.len(),
{
    if files.len() == 0 {
        Map::empty()
    } else {
        files_view(files.drop_last()).insert(files.last().0@, files.last().1@)
    }
}

/// No module name occurs twice.
pub open spec fn names_unique(files: Seq<(String, String)>) -> bool {
    forall|i: int, j: int| 0 <= i < j < files.len() ==> (#[trigger] files[i]).0@ != (#[trigger] files[j]).0@
}

/// The names of the files are exactly the keys of the view.
proof fn lemma_files_view_keys(files: Seq<(String, String)>, name: Seq<char>)
    ensures
        files_view(files).contains_key(name) <==> exists|i: int| 0 <= i < files.len() && (#[trigger] files[i]).0@ == name,
    decreases files.len(),
{
    if files.len() > 0 {
        lemma_files_view_keys(files.drop_last(), name);
        if files.last().0@ != name && files_view(files).contains_key(name) {
            let i = choose|i: int| 0 <= i < files.len() - 1 && (#[trigger] files.drop_last()[i]).0@ == name;
            assert(files[i] == files.drop_last()[i]);
        }
        if exists|i: int| 0 <= i < files.len() && (#[trigger] files[i]).0@ == name {
            let i = choose|i: int| 0 <= i < files.len() && (#[trigger] files[i]).0@ == name;
            if i < files.len() - 1 {
                assert(files.drop_last()[i] == files[i]);
            }
        }
    }
}

/// With unique names, the view maps the name of entry `i` to its text.
proof fn lemma_files_view_at(files: Seq<(String, String)>, i: int)
    requires
        names_unique(files),
        0 <= i < files.len(),
    ensures
        files_view(files).contains_key(files[i].0@),
        files_view(files)[files[i].0@] == files[i].1@,
    decreases files.len(),
{
    if i < files.len() - 1 {
        assert(files.drop_last()[i] == files[i]);
        lemma_files_view_at(files.drop_last(), i);
    }
}

/// With unique names, replacing the text of entry `i` is an insertion.
proof fn lemma_files_view_update(files: Seq<(String, String)>, i: int, e: (String, String))
    requires
        names_unique(files),
        0 <= i < files.len(),
        e.0@ == files[i].0@,
    ensures
        files_view(files.update(i, e)) == files_view(files).insert(e.0@, e.1@),
    decreases files.len(),
{
    let u = files.update(i, e);
    if i == files.len() - 1 {
        assert(u.drop_last() =~= files.drop_last());
        assert(files_view(files).insert(e.0@, e.1@) =~= files_view(files.drop_last()).insert(e.0@, e.1@));
    } else {
        assert(u.drop_last() =~= files.drop_last().update(i, e));
        lemma_files_view_update(files.drop_last(), i, e);
        assert(files.last().0@ != e.0@);
        assert(files_view(u) =~= files_view(files).insert(e.0@, e.1@));
    }
}

impl State {
    /// The texts of the open files by module name.
    pub open spec fn files(&self) -> Map<Seq<char>, Seq<char>> {
        files_view(self.file_map@)
    }

    pub open spec fn wf(&self) -> bool {
        names_unique(self.file_map@)
    }

    /// A session with no open file.
    pub fn new() -> (s: Self)
        ensures
            s.wf(),
            s.files() == Map::<Seq<char>, Seq<char>>::empty(),
    {
        State { file_map: Vec::new() }
    }

    /// The text of the module `name`, if it is open.
    pub fn get_file(&self, name: &str) -> (r: Option<String>)
        requires
            self.wf(),
        ensures
            match r {
                Some(t) => self.files().contains_key(name@) && t@ == self.files()[name@],
                None => !self.files().contains_key(name@),
            },
    {
        let key = name.to_owned();
        let mut i: usize = 0;
        while i < self.file_map.len()
            invariant
                self.wf(),
                key@ == name@,
                i <= self.file_map@.len(),
                forall|j: int| 0 <= j < i ==> (#[trigger] self.file_map@[j]).0@ != name@,
            decreases self.file_map.len() - i,
        {
            if self.file_map[i].0 == key {
                proof {
                    lemma_files_view_at(self.file_map@, i as int);
                }
                return Some(self.file_map[i].1.clone());
            }
            i += 1;
        }
        proof {
            lemma_files_view_keys(self.file_map@, name@);
        }
        None
    }

    /// Opens the module `name` with `text`, or replaces its text.
    pub fn add_file(&mut self, name: String, text: String)
        requires
            old(self).wf(),
        ensures
            final(self).wf(),
            final(self).files() == old(self).files().insert(name@, text@),
    {
        let mut i: usize = 0;
        while i < self.file_map.len()
            invariant
                i <= self.file_map@.len(),
                old(self).wf(),
                self.file_map@ == old(self).file_map@,
                forall|j: int| 0 <= j < i ==> (#[trigger] self.file_map@[j]).0@ != name@,
            decreases self.file_map.len() - i,
        {
            if self.file_map[i].0 == name {
                let ghost e = (name, text);
                proof {
                    lemma_files_view_update(self.file_map@, i as int, e);
                }
                self.file_map.set(i, (name, text));
                assert forall|j: int, k: int| 0 <= j < k < self.file_map@.len() implies (#[trigger] self.file_map@[j]).0@
                    != (#[trigger] self.file_map@[k]).0@ by {
                    assert(old(self).file_map@[j].0@ != old(self).file_map@[k].0@);
                }
                return;
            }
            i += 1;
        }
        let ghost before = self.file_map@;
        self.file_map.push((name, text));
        assert(self.file_map@.drop_last() =~= before);
    }
}

/// The module name of a document whose path ends in the segment `segment`:
/// the segment up to its first `.`, or `unknown` when the path has none.
pub fn get_module_name(segment: Option<&str>) -> (r: String)
    ensures
        r@ == module_name(match segment {
            Some(s) => s@,
            None => "unknown"@,
        }),
{
    let s: &str = match segment {
        Some(s) => s,
        None => "unknown",
    };
    let ghost src = match segment {
        Some(t) => t@,
        None => "unknown"@,
    };
    let n = s.unicode_len();
    let mut i: usize = 0;
    while i < n
        invariant
            i <= n,
            n == s@.len(),
            s@ == src,
            src == (match segment {
                Some(t) => t@,
                None => "unknown"@,
            }),
            forall|j: int| 0 <= j < i ==> s@[j] != '.',
        decreases n - i,
    {
        if s.get_char(i) == '.' {
            let r = s.substring_char(0, i).to_owned();
            proof {
                assert(s@[i as int] == '.');
                assert(exists|k: int| 0 <= k < s@.len() && s@[k] == '.');
                let k = choose|k: int| 0 <= k < s@.len() && s@[k] == '.' && forall|j: int| 0 <= j < k ==> s@[j] != '.';
                assert(k == i as int);
                assert(r@ =~= s@.take(i as int));
            }
            return r;
        }
        i += 1;
    }
    s.to_owned()
}

/// `s` up to its first `.`.
pub open spec fn module_name(s: Seq<char>) -> Seq<char> {
    if exists|i: int| 0 <= i < s.len() && s[i] == '.' {
        s.take(choose|i: int| 0 <= i < s.len() && s[i] == '.' && forall|j: int| 0 <= j < i ==> s[j] != '.')
    } else {
        s
    }
}

} // verus!
