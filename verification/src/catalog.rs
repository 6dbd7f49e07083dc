use vstd::prelude::*;
use vstd::string::*;

verus! {

/// The four characters `.obj`.
pub open spec fn obj_suffix() -> Seq<char> {
    seq!['.', 'o', 'b', 'j']
}

/// A file name whose extension is `obj`: it ends in `.obj`, and something
/// comes before that suffix (a name such as `.obj` has no extension).
pub open spec fn is_model_file_name(name: Seq<char>) -> bool {
    &&& name.len() > 4
    &&& name.subrange(name.len() - 4, name.len() as int) == obj_suffix()
}

/// Whether a directory entry, given by its file name, is a model file.
pub fn is_model_file(name: &str) -> (b: bool)
    ensures
        b == is_model_file_name(name@),
{
    let n = name.unicode_len();
    if n <= 4 {
        return false;
    }
    let b = name.get_char(n - 4) == '.' && name.get_char(n - 3) == 'o'
        && name.get_char(n - 2) == 'b' && name.get_char(n - 1) == 'j';
    assert(b == (name@.subrange(n - 4, n as int) =~= obj_suffix()));
    b
}

/// The directory, relative to the asset root, that holds the models.
pub open spec fn models_dir() -> Seq<char> {
    seq!['m', 'o', 'd', 'e', 'l', 's', '/']
}

/// The asset path under which a model file of the given name is loaded.
pub open spec fn asset_path(name: Seq<char>) -> Seq<char> {
    models_dir() + name
}

/// The asset paths of the model files among the given directory entries,
/// in the order of the entries.
pub open spec fn loaded_model_paths(names: Seq<Seq<char>>) -> Seq<Seq<char>>
    decreases names.len(),
{
    if names.len() == 0 {
        Seq::empty()
    } else {
        let rest = loaded_model_paths(names.drop_last());
        if is_model_file_name(names.last()) {
            rest.push(asset_path(names.last()))
        } else {
            rest
        }
    }
}

/// The views of a vector of strings.
pub open spec fn string_views(v: Seq<String>) -> Seq<Seq<char>> {
    v.map_values(|s: String| s@)
}

/// The asset path `models/<name>` of a model file.
pub fn model_asset_path(name: &str) -> (path: String)
    ensures
        path@ == asset_path(name@),
{
    let dir = String::from_str("models/");
    proof {
        reveal_strlit("models/");
    }
    assert(dir@ =~= models_dir());
    dir.concat(name)
}

/// From the file names found in the models directory, the asset paths to
/// load: one per model file, in the order in which the names came.
pub fn model_asset_paths(names: &Vec<String>) -> (paths: Vec<String>)
    ensures
        string_views(paths@) == loaded_model_paths(string_views(names@)),
{
    let mut paths: Vec<String> = Vec::new();
    let ghost views = string_views(names@);
    for i in 0..names.len()
        invariant
            views == string_views(names@),
            string_views(paths@) == loaded_model_paths(views.take(i as int)),
    {
        assert(views.take(i + 1).drop_last() =~= views.take(i as int));
        assert(views.take(i + 1).last() == names@[i as int]@);
        if is_model_file(names[i].as_str()) {
            let p = model_asset_path(names[i].as_str());
            paths.push(p);
            assert(string_views(paths@) =~= loaded_model_paths(views.take(i as int)).push(p@));
        }
    }
    assert(views.take(names.len() as int) =~= views);
    paths
}

/// The index of the last occurrence of `c` in `s`, or -1 where `c` does
/// not occur.
pub open spec fn last_index_of(s: Seq<char>, c: char) -> int
    decreases s.len(),
{
    if s.len() == 0 {
        -1
    } else if s.last() == c {
        s.len() - 1
    } else {
        last_index_of(s.drop_last(), c)
    }
}

/// `last_index_of` is the last position that holds `c`, or -1 where none does.
pub proof fn lemma_last_index_of(s: Seq<char>, c: char)
    ensures
        -1 <= last_index_of(s, c) < s.len(),
        last_index_of(s, c) >= 0 ==> s[last_index_of(s, c)] == c,
        forall|i: int| last_index_of(s, c) < i < s.len() ==> s[i] != c,
    decreases s.len(),
{
    if s.len() > 0 && s.last() != c {
        lemma_last_index_of(s.drop_last(), c);
        assert forall|i: int| last_index_of(s, c) < i < s.len() implies s[i] != c by {
            if i < s.len() - 1 {
                assert(s[i] == s.drop_last()[i]);
            }
        }
    }
}

/// Where a position `k` in [-1, len) is such that `s[k] == c` (unless -1)
/// and no later position holds `c`, it is `last_index_of(s, c)`.
pub proof fn lemma_last_index_of_unique(s: Seq<char>, c: char, k: int)
    requires
        -1 <= k < s.len(),
        k >= 0 ==> s[k] == c,
        forall|i: int| k < i < s.len() ==> s[i] != c,
    ensures
        last_index_of(s, c) == k,
{
    lemma_last_index_of(s, c);
    let l = last_index_of(s, c);
    if l < k {
        assert(s[k] != c);
    } else if l > k {
        assert(s[l] != c);
    }
}

/// The one-character path component `.`, which names the current directory.
pub open spec fn current_dir() -> Seq<char> {
    seq!['.']
}

/// The path component `..`, which names the parent directory.
pub open spec fn parent_dir() -> Seq<char> {
    seq!['.', '.']
}

/// A `/`-separated segment that is a component of its own: empty segments
/// (from repeated or trailing separators) and `.` segments are skipped.
pub open spec fn is_component(seg: Seq<char>) -> bool {
    seg.len() > 0 && seg != current_dir()
}

/// The last component of a `/`-separated path, if it has one.
pub open spec fn last_component(p: Seq<char>) -> Option<Seq<char>>
    decreases p.len(),
{
    let k = last_index_of(p, '/');
    let seg = p.subrange(k + 1, p.len() as int);
    if is_component(seg) {
        Some(seg)
    } else if k < 0 {
        None
    } else {
        proof {
            lemma_last_index_of(p, '/');
        }
        last_component(p.subrange(0, k))
    }
}

/// The file name of a path: its last component, unless there is none or it
/// is `..` (the rule of `std::path::Path::file_name` on a Unix path).
pub open spec fn file_name(p: Seq<char>) -> Option<Seq<char>> {
    match last_component(p) {
        Some(c) => if c == parent_dir() {
            None
        } else {
            Some(c)
        },
        None => None,
    }
}

/// The stem of a file name: the part before its last `.`, or the whole name
/// where it holds no `.` or only a leading one (the rule of
/// `std::path::Path::file_stem`).
pub open spec fn file_stem(name: Seq<char>) -> Seq<char> {
    let k = last_index_of(name, '.');
    if k <= 0 {
        name
    } else {
        name.subrange(0, k)
    }
}

/// The label shown for a model that has no asset path.
pub open spec fn unknown_model() -> Seq<char> {
    seq!['U', 'n', 'k', 'n', 'o', 'w', 'n', ' ', 'M', 'o', 'd', 'e', 'l']
}

/// Whether a model's asset path, where it has one, has a file name.
pub open spec fn labelable(path: Option<Seq<char>>) -> bool {
    match path {
        Some(p) => file_name(p) is Some,
        None => true,
    }
}

/// The dropdown label of a model: the stem of its asset path's file name,
/// or `Unknown Model` where the model has no path.
pub open spec fn model_label_of(path: Option<Seq<char>>) -> Seq<char> {
    match path {
        Some(p) => file_stem(file_name(p).unwrap()),
        None => unknown_model(),
    }
}

fn chars_of(s: &str) -> (v: Vec<char>)
    ensures
        v@ == s@,
{
    let n = s.unicode_len();
    let mut v: Vec<char> = Vec::new();
    for i in 0..n
        invariant
            n == s@.len(),
            v@ == s@.take(i as int),
    {
        v.push(s.get_char(i));
        assert(v@ =~= s@.take(i + 1));
    }
    assert(v@ =~= s@);
    v
}

/// The position of the last `c` before `end`, scanning backwards.
fn last_index_before(s: &Vec<char>, c: char, end: usize) -> (k: Option<usize>)
    requires
        end <= s@.len(),
    ensures
        match k {
            Some(k) => k < end && last_index_of(s@.subrange(0, end as int), c) == k,
            None => last_index_of(s@.subrange(0, end as int), c) == -1,
        },
{
    let ghost t = s@.subrange(0, end as int);
    let mut j = end;
    while j > 0
        invariant
            j <= end <= s@.len(),
            t == s@.subrange(0, end as int),
            forall|i: int| j <= i < end ==> s@[i] != c,
        decreases j,
    {
        if s[j - 1] == c {
            proof {
                lemma_last_index_of_unique(t, c, j - 1);
            }
            return Some(j - 1);
        }
        j = j - 1;
    }
    proof {
        lemma_last_index_of_unique(t, c, -1);
    }
    None
}

/// The bounds of the file name of the path held in `p`, if it has one.
fn file_name_bounds(p: &Vec<char>) -> (r: Option<(usize, usize)>)
    ensures
        match r {
            Some((a, b)) => a <= b <= p@.len() && file_name(p@) == Some(p@.subrange(a as int, b as int)),
            None => file_name(p@) is None,
        },
{
    let mut end = p.len();
    assert(p@.subrange(0, end as int) =~= p@);
    loop
        invariant
            end <= p@.len(),
            last_component(p@) == last_component(p@.subrange(0, end as int)),
        decreases end,
    {
        let ghost t = p@.subrange(0, end as int);
        let k = last_index_before(p, '/', end);
        let start = match k {
            Some(k) => k + 1,
            None => 0,
        };
        proof {
            assert(t.subrange(last_index_of(t, '/') + 1, t.len() as int) =~= p@.subrange(start as int, end as int));
        }
        let len = end - start;
        let is_dot = len == 1 && p[start] == '.';
        proof {
            if len >= 1 {
                assert(p@.subrange(start as int, end as int)[0] == p@[start as int]);
            }
            if len >= 2 {
                assert(p@.subrange(start as int, end as int)[1] == p@[start + 1]);
            }
        }
        assert(is_dot == (p@.subrange(start as int, end as int) =~= current_dir()));
        if len > 0 && !is_dot {
            let is_parent = len == 2 && p[start] == '.' && p[start + 1] == '.';
            assert(is_parent == (p@.subrange(start as int, end as int) =~= parent_dir()));
            if is_parent {
                return None;
            }
            return Some((start, end));
        }
        match k {
            None => {
                return None;
            },
            Some(k) => {
                assert(t.subrange(0, k as int) =~= p@.subrange(0, k as int));
                end = k;
            },
        }
    }
}

/// The stem of the file name held in `name`.
fn file_stem_end(name: &Vec<char>, a: usize, b: usize) -> (e: usize)
    requires
        a <= b <= name@.len(),
    ensures
        a <= e <= b,
        file_stem(name@.subrange(a as int, b as int)) == name@.subrange(a as int, e as int),
{
    let ghost f = name@.subrange(a as int, b as int);
    let mut j = b;
    while j > a
        invariant
            a <= j <= b <= name@.len(),
            f == name@.subrange(a as int, b as int),
            forall|i: int| j <= i < b ==> name@[i] != '.',
        decreases j,
    {
        if name[j - 1] == '.' {
            proof {
                lemma_last_index_of_unique(f, '.', j - 1 - a);
            }
            if j - 1 == a {
                return b;
            }
            assert(f.subrange(0, j - 1 - a) =~= name@.subrange(a as int, j - 1));
            return j - 1;
        }
        j = j - 1;
    }
    proof {
        lemma_last_index_of_unique(f, '.', -1);
    }
    b
}

/// The label that the model dropdown shows for a model with the given asset
/// path: the stem of the path's file name, or `Unknown Model`.
pub fn model_label(path: Option<&str>) -> (label: String)
    requires
        labelable(match path {
            Some(p) => Some(p@),
            None => None,
        }),
    ensures
        label@ == model_label_of(match path {
            Some(p) => Some(p@),
            None => None,
        }),
{
    match path {
        None => {
            let s = String::from_str("Unknown Model");
            proof {
                reveal_strlit("Unknown Model");
            }
            assert(s@ =~= unknown_model());
            s
        },
        Some(p) => {
            let chars = chars_of(p);
            let (a, b) = file_name_bounds(&chars).unwrap();
            let e = file_stem_end(&chars, a, b);
            String::from_str(p.substring_char(a, e))
        },
    }
}

/// The view of an optional string.
pub open spec fn opt_view(s: Option<String>) -> Option<Seq<char>> {
    match s {
        Some(s) => Some(s@),
        None => None,
    }
}

/// The labels of the dropdown's options, one per loaded model, in the order
/// of the models; each model is given by its asset path, where it has one.
pub fn dropdown_labels(paths: &Vec<Option<String>>) -> (labels: Vec<String>)
    requires
        forall|i: int| 0 <= i < paths@.len() ==> labelable(#[trigger] opt_view(paths@[i])),
    ensures
        labels@.len() == paths@.len(),
        forall|i: int|
            0 <= i < paths@.len() ==> #[trigger] labels@[i]@ == model_label_of(opt_view(paths@[i])),
{
    let mut labels: Vec<String> = Vec::new();
    for i in 0..paths.len()
        invariant
            forall|j: int| 0 <= j < paths@.len() ==> labelable(#[trigger] opt_view(paths@[j])),
            labels@.len() == i,
            forall|j: int| 0 <= j < i ==> #[trigger] labels@[j]@ == model_label_of(opt_view(paths@[j])),
    {
        assert(labelable(opt_view(paths@[i as int])));
        let label = match &paths[i] {
            Some(p) => model_label(Some(p.as_str())),
            None => model_label(None),
        };
        labels.push(label);
    }
    labels
}

/// The dropdown labels a loaded model by the name of its file without the
/// `.obj` suffix: for a model file found in the models directory (a name
/// without `/`), the label of its asset path is that name minus `.obj`.
pub proof fn lemma_label_of_loaded_model(name: Seq<char>)
    requires
        is_model_file_name(name),
        !name.contains('/'),
    ensures
        labelable(Some(asset_path(name))),
        model_label_of(Some(asset_path(name))) == name.subrange(0, name.len() - 4),
{
    let p = asset_path(name);
    assert forall|i: int| 6 < i < p.len() implies p[i] != '/' by {
        assert(p[i] == name[i - 7]);
    }
    assert(p[6] == '/');
    lemma_last_index_of_unique(p, '/', 6);
    assert(p.subrange(7, p.len() as int) =~= name);
    assert(name.len() > 1 && name != current_dir());
    assert(last_component(p) == Some(name));
    assert(name != parent_dir()) by {
        assert(name.len() != 2);
    }
    let k = name.len() - 4;
    assert(name[k] == '.') by {
        assert(name[k] == name.subrange(k, name.len() as int)[0]);
    }
    assert forall|i: int| k < i < name.len() implies name[i] != '.' by {
        assert(name[i] == name.subrange(k, name.len() as int)[i - k]);
    }
    lemma_last_index_of_unique(name, '.', k);
}

/// The asset path `p` was made from `names[j]`, a model file, and is
/// labelled by that name without `.obj`.
pub open spec fn labelled_from(names: Seq<Seq<char>>, p: Seq<char>, j: int) -> bool {
    &&& 0 <= j < names.len()
    &&& is_model_file_name(names[j])
    &&& p == asset_path(names[j])
    &&& labelable(Some(p))
    &&& model_label_of(Some(p)) == names[j].subrange(0, names[j].len() - 4)
}

/// Some model file among the names made the asset path `p` and labels it.
pub open spec fn has_label_source(names: Seq<Seq<char>>, p: Seq<char>) -> bool {
    exists|j: int| labelled_from(names, p, j)
}

/// Every asset path that the loader makes from the names found in the models
/// directory (names without `/`) has a label, and that label is the name of
/// the model's file without `.obj`.
pub proof fn lemma_loaded_models_labelled(names: Seq<Seq<char>>)
    requires
        forall|j: int| 0 <= j < names.len() ==> !(#[trigger] names[j]).contains('/'),
    ensures
        forall|i: int|
            0 <= i < loaded_model_paths(names).len() ==> has_label_source(
                names,
                #[trigger] loaded_model_paths(names)[i],
            ),
    decreases names.len(),
{
    if names.len() > 0 {
        let d = names.drop_last();
        assert forall|j: int| 0 <= j < d.len() implies !(#[trigger] d[j]).contains('/') by {
            assert(d[j] == names[j]);
        }
        lemma_loaded_models_labelled(d);
        let rest = loaded_model_paths(d);
        let n = names.len() - 1;
        assert forall|i: int| 0 <= i < loaded_model_paths(names).len() implies has_label_source(
            names,
            #[trigger] loaded_model_paths(names)[i],
        ) by {
            if i < rest.len() {
                assert(loaded_model_paths(names)[i] == rest[i]);
                assert(has_label_source(d, rest[i]));
                let j = choose|j: int| labelled_from(d, rest[i], j);
                assert(names[j] == d[j]);
                assert(labelled_from(names, loaded_model_paths(names)[i], j));
            } else {
                assert(names[n] == names.last());
                assert(!names[n].contains('/'));
                lemma_label_of_loaded_model(names[n]);
                assert(labelled_from(names, loaded_model_paths(names)[i], n));
            }
        }
    }
}

/// The asset path of a model file is the directory `models/` followed by the
/// file's name, whatever the name.
pub proof fn lemma_asset_path_is_under_models(name: Seq<char>)
    ensures
        asset_path(name) == seq!['m', 'o', 'd', 'e', 'l', 's', '/'] + name,
        asset_path(name).len() == name.len() + 7,
        asset_path(name).subrange(7, asset_path(name).len() as int) == name,
{
    assert(asset_path(name).subrange(7, asset_path(name).len() as int) =~= name);
}

/// Only the suffix decides: any non-empty stem followed by `.obj` names a
/// model file.
pub proof fn lemma_obj_names_are_model_files(stem: Seq<char>)
    requires
        stem.len() > 0,
    ensures
        is_model_file_name(stem + seq!['.', 'o', 'b', 'j']),
{
    let name = stem + seq!['.', 'o', 'b', 'j'];
    assert(name.subrange(name.len() - 4, name.len() as int) =~= seq!['.', 'o', 'b', 'j']);
}

/// A model file name is a non-empty stem followed by `.obj`; so `.obj` alone,
/// and any name that does not end in `.obj`, is no model file.
pub proof fn lemma_model_files_end_in_obj(name: Seq<char>)
    requires
        is_model_file_name(name),
    ensures
        name.len() > 4,
        name == name.subrange(0, name.len() - 4) + seq!['.', 'o', 'b', 'j'],
{
    assert(name =~= name.subrange(0, name.len() - 4) + name.subrange(name.len() - 4, name.len() as int));
}

/// The loader keeps exactly the names that end in `.obj` after a non-empty
/// stem, in the order of the names, each as `models/` followed by the name.
pub proof fn lemma_loader_keeps_exactly_obj_entries(names: Seq<Seq<char>>)
    ensures
        loaded_model_paths(names) == names.filter(
            |n: Seq<char>| n.len() > 4 && n.subrange(n.len() - 4, n.len() as int) == seq!['.', 'o', 'b', 'j'],
        ).map_values(|n: Seq<char>| seq!['m', 'o', 'd', 'e', 'l', 's', '/'] + n),
    decreases names.len(),
{
    reveal_with_fuel(Seq::<Seq<char>>::filter, 1);
    let pred = |n: Seq<char>| n.len() > 4 && n.subrange(n.len() - 4, n.len() as int) == seq!['.', 'o', 'b', 'j'];
    let f = |n: Seq<char>| seq!['m', 'o', 'd', 'e', 'l', 's', '/'] + n;
    if names.len() > 0 {
        let d = names.drop_last();
        lemma_loader_keeps_exactly_obj_entries(d);
        let kept = d.filter(pred);
        assert(is_model_file_name(names.last()) == pred(names.last()));
        if pred(names.last()) {
            assert(kept.push(names.last()).map_values(f) =~= kept.map_values(f).push(f(names.last())));
        }
    } else {
        assert(names.filter(pred) =~= Seq::<Seq<char>>::empty());
        assert(names.filter(pred).map_values(f) =~= Seq::<Seq<char>>::empty());
    }
}

/// No model file is left out: every entry that ends in `.obj` after a
/// non-empty stem has its path `models/<name>` among the loaded paths, and
/// there are as many loaded paths as such entries.
pub proof fn lemma_loader_is_complete(names: Seq<Seq<char>>, j: int)
    requires
        0 <= j < names.len(),
        names[j].len() > 4,
        names[j].subrange(names[j].len() - 4, names[j].len() as int) == seq!['.', 'o', 'b', 'j'],
    ensures
        loaded_model_paths(names).contains(seq!['m', 'o', 'd', 'e', 'l', 's', '/'] + names[j]),
        loaded_model_paths(names).len() == names.filter(
            |n: Seq<char>| n.len() > 4 && n.subrange(n.len() - 4, n.len() as int) == seq!['.', 'o', 'b', 'j'],
        ).len(),
{
    let pred = |n: Seq<char>| n.len() > 4 && n.subrange(n.len() - 4, n.len() as int) == seq!['.', 'o', 'b', 'j'];
    let f = |n: Seq<char>| seq!['m', 'o', 'd', 'e', 'l', 's', '/'] + n;
    lemma_loader_keeps_exactly_obj_entries(names);
    names.lemma_filter_contains(pred, j);
    let kept = names.filter(pred);
    let k = choose|k: int| 0 <= k < kept.len() && kept[k] == names[j];
    assert(kept.map_values(f)[k] == f(names[j]));
}

/// A model without an asset path is labelled `Unknown Model`.
pub proof fn lemma_label_without_path()
    ensures
        model_label_of(None) == seq!['U', 'n', 'k', 'n', 'o', 'w', 'n', ' ', 'M', 'o', 'd', 'e', 'l'],
{
}

/// The file name of a path that ends in a plain component (non-empty,
/// without `/`, neither `.` nor `..`) is that component, whether the path
/// is the component alone or has directories before it.
pub proof fn lemma_file_name_of_last_component(dir: Seq<char>, name: Seq<char>)
    requires
        name.len() > 0,
        !name.contains('/'),
        name != seq!['.'],
        name != seq!['.', '.'],
    ensures
        file_name(name) == Some(name),
        file_name(dir + seq!['/'] + name) == Some(name),
{
    assert forall|i: int| -1 < i < name.len() implies name[i] != '/' by {
        if name[i] == '/' {
            assert(name.contains('/'));
        }
    }
    lemma_last_index_of_unique(name, '/', -1);
    assert(name.subrange(0, name.len() as int) =~= name);
    let p = dir + seq!['/'] + name;
    let k = dir.len() as int;
    assert forall|i: int| k < i < p.len() implies p[i] != '/' by {
        assert(p[i] == name[i - k - 1]);
    }
    assert(p[k] == '/');
    lemma_last_index_of_unique(p, '/', k);
    assert(p.subrange(k + 1, p.len() as int) =~= name);
}

/// A trailing `/` or `/.` does not change a path's file name, and a path
/// that ends in `..` has none.
pub proof fn lemma_file_name_trailing(p: Seq<char>)
    ensures
        file_name(p + seq!['/']) == file_name(p),
        file_name(p + seq!['/', '.']) == file_name(p),
        file_name(p + seq!['/', '.', '.']) is None,
        file_name(seq!['.', '.']) is None,
{
    let p1 = p + seq!['/'];
    lemma_last_index_of_unique(p1, '/', p.len() as int);
    assert(p1.subrange(p.len() as int + 1, p1.len() as int) =~= Seq::<char>::empty());
    assert(p1.subrange(0, p.len() as int) =~= p);
    let p2 = p + seq!['/', '.'];
    assert forall|i: int| p.len() < i < p2.len() implies p2[i] != '/' by {}
    lemma_last_index_of_unique(p2, '/', p.len() as int);
    assert(p2.subrange(p.len() as int + 1, p2.len() as int) =~= seq!['.']);
    assert(p2.subrange(0, p.len() as int) =~= p);
    let p3 = p + seq!['/', '.', '.'];
    assert forall|i: int| p.len() < i < p3.len() implies p3[i] != '/' by {}
    lemma_last_index_of_unique(p3, '/', p.len() as int);
    assert(p3.subrange(p.len() as int + 1, p3.len() as int) =~= seq!['.', '.']);
    let p4 = seq!['.', '.'];
    assert forall|i: int| -1 < i < p4.len() implies p4[i] != '/' by {}
    lemma_last_index_of_unique(p4, '/', -1);
    assert(p4.subrange(0, 2) =~= p4);
}

/// The stem of a file name is what comes before its last `.`, where
/// something does; a name without `.`, or whose only `.` is its first
/// character, is its own stem.
pub proof fn lemma_file_stem(stem: Seq<char>, ext: Seq<char>)
    requires
        !ext.contains('.'),
    ensures
        stem.len() > 0 ==> file_stem(stem + seq!['.'] + ext) == stem,
        file_stem(seq!['.'] + ext) == seq!['.'] + ext,
        file_stem(ext) == ext,
{
    assert forall|i: int| -1 < i < ext.len() implies ext[i] != '.' by {
        if ext[i] == '.' {
            assert(ext.contains('.'));
        }
    }
    lemma_last_index_of_unique(ext, '.', -1);
    let n = stem + seq!['.'] + ext;
    let k = stem.len() as int;
    assert forall|i: int| k < i < n.len() implies n[i] != '.' by {
        assert(n[i] == ext[i - k - 1]);
    }
    assert(n[k] == '.');
    lemma_last_index_of_unique(n, '.', k);
    assert(n.subrange(0, k) =~= stem);
    let m = seq!['.'] + ext;
    assert forall|i: int| 0 < i < m.len() implies m[i] != '.' by {
        assert(m[i] == ext[i - 1]);
    }
    lemma_last_index_of_unique(m, '.', 0);
}

} // verus!
