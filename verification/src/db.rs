//! The source database: input store, query graph, and incremental cache.
//!
//! Three inputs are held, each replaced wholesale by its setter and
//! versioned independently: file text per [`FileId`], the import table, and
//! the define set. Derived queries are memoized per argument together with
//! the versions of the inputs they read; a memo entry whose recorded
//! versions match the current ones is fresh and is returned as is, any other
//! entry is stale and is recomputed lazily on the next access. Setters bump
//! the version of the value they replace, which makes exactly the entries
//! that read it stale.

use crate::inputs::DefineSet;
use crate::inputs::ImportTable;
use crate::line_index::lemma_line_starts_wf;
use crate::line_index::line_starts_spec;
use crate::line_index::LineIndex;
use crate::resolver::splice;
use crate::resolver::splice_spec;
use crate::shader_processor::process;
use crate::shader_processor::process_spec;
use crate::shader_processor::unconf_views;
use crate::shader_processor::UnconfView;
use crate::shader_processor::UnconfiguredCode;
use crate::tree::parse;
use crate::tree::Parse;
use crate::util_types::str_eq;
use crate::util_types::FileId;
use crate::Upcast;
use vstd::prelude::*;

verus! {

impl Upcast<SourceDatabase> for SourceDatabase {
    fn upcast(&self) -> &SourceDatabase {
        self
    }
}

/// The first value bound to `k` in an association sequence; later entries
/// for the same key are shadowed.
pub open spec fn first_match<K, V>(s: Seq<(K, V)>, k: K) -> Option<V>
    decreases s.len(),
{
    if s.len() == 0 {
        None
    } else if s[0].0 == k {
        Some(s[0].1)
    } else {
        first_match(s.drop_first(), k)
    }
}

proof fn lemma_first_match_found<K, V>(s: Seq<(K, V)>, k: K, j: int)
    requires
        0 <= j < s.len(),
        s[j].0 == k,
        forall|m: int| 0 <= m < j ==> (#[trigger] s[m]).0 != k,
    ensures
        first_match(s, k) == Some(s[j].1),
    decreases s.len(),
{
    if j > 0 {
        assert forall|m: int| 0 <= m < j - 1 implies (#[trigger] s.drop_first()[m]).0 != k by {
            assert(s.drop_first()[m] == s[m + 1]);
        }
        assert(s.drop_first()[j - 1] == s[j]);
        lemma_first_match_found(s.drop_first(), k, j - 1);
    }
}

proof fn lemma_first_match_absent<K, V>(s: Seq<(K, V)>, k: K)
    requires
        forall|m: int| 0 <= m < s.len() ==> (#[trigger] s[m]).0 != k,
    ensures
        first_match(s, k) is None,
    decreases s.len(),
{
    if s.len() > 0 {
        assert forall|m: int| 0 <= m < s.drop_first().len() implies (#[trigger] s.drop_first()[m]).0
            != k by {
            assert(s.drop_first()[m] == s[m + 1]);
        }
        lemma_first_match_absent(s.drop_first(), k);
    }
}

proof fn lemma_first_match_prepend<K, V>(s: Seq<(K, V)>, e: (K, V))
    ensures
        first_match(seq![e] + s, e.0) == Some(e.1),
        forall|k: K| k != e.0 ==> first_match(seq![e] + s, k) == first_match(s, k),
{
    let t = seq![e] + s;
    assert(t[0] == e);
    assert(t.drop_first() =~= s);
}

/// Association entries with a text key, abstracted to the key's characters.
pub open spec fn str_entries<V>(s: Seq<(String, V)>) -> Seq<(Seq<char>, V)> {
    Seq::new(s.len(), |i: int| (s[i].0@, s[i].1))
}

fn find_by_file<V>(v: &Vec<(FileId, V)>, id: FileId) -> (r: Option<usize>)
    ensures
        match r {
            Some(idx) => idx < v@.len() && first_match(v@, id) == Some(v@[idx as int].1),
            None => first_match(v@, id) is None,
        },
{
    let mut i: usize = 0;
    while i < v.len()
        invariant
            i <= v@.len(),
            forall|m: int| 0 <= m < i ==> (#[trigger] v@[m]).0 != id,
        decreases v@.len() - i,
    {
        if v[i].0 == id {
            proof {
                lemma_first_match_found(v@, id, i as int);
            }
            return Some(i);
        }
        i += 1;
    }
    proof {
        lemma_first_match_absent(v@, id);
    }
    None
}

fn find_by_key<V>(v: &Vec<(String, V)>, key: &str) -> (r: Option<usize>)
    ensures
        match r {
            Some(idx) => idx < v@.len() && first_match(str_entries(v@), key@) == Some(
                v@[idx as int].1,
            ),
            None => first_match(str_entries(v@), key@) is None,
        },
{
    let mut i: usize = 0;
    while i < v.len()
        invariant
            i <= v@.len(),
            forall|m: int| 0 <= m < i ==> (#[trigger] str_entries(v@)[m]).0 != key@,
        decreases v@.len() - i,
    {
        if str_eq(v[i].0.as_str(), key) {
            proof {
                assert(str_entries(v@)[i as int].0 == key@);
                lemma_first_match_found(str_entries(v@), key@, i as int);
            }
            return Some(i);
        }
        proof {
            assert(str_entries(v@)[i as int].0 != key@);
        }
        i += 1;
    }
    proof {
        lemma_first_match_absent(str_entries(v@), key@);
    }
    None
}

fn clone_unconfigured(v: &Vec<UnconfiguredCode>) -> (r: Vec<UnconfiguredCode>)
    ensures
        r@ == v@,
{
    let mut r: Vec<UnconfiguredCode> = Vec::new();
    let mut i: usize = 0;
    while i < v.len()
        invariant
            i <= v@.len(),
            r@ == v@.take(i as int),
        decreases v@.len() - i,
    {
        r.push(v[i].clone());
        proof {
            assert(r@ =~= v@.take(i as int + 1));
        }
        i += 1;
    }
    proof {
        assert(v@.take(i as int) =~= v@);
    }
    r
}

/// The text a full parse of one file sees: the file's text, preprocessed
/// under the define set, with the import table spliced in.
pub open spec fn parsed_text_spec(
    text: Seq<char>,
    defines: Set<Seq<char>>,
    imports: Map<Seq<char>, Seq<char>>,
) -> Seq<char> {
    splice_spec(
        process_spec(text, defines).processed,
        process_spec(text, defines).occurrences,
        imports,
    )
}

struct FileInput {
    version: u64,
    text: String,
}

struct LineIndexMemo {
    file_version: u64,
    value: LineIndex,
}

struct ParseRawMemo {
    file_version: u64,
    tree: Parse,
}

struct ParseFullMemo {
    file_version: u64,
    defines_version: u64,
    imports_version: u64,
    tree: Parse,
    unconfigured: Vec<UnconfiguredCode>,
}

struct ImportMemo {
    imports_version: u64,
    defines_version: u64,
    value: Option<Parse>,
}

struct ImportRawMemo {
    imports_version: u64,
    value: Option<Parse>,
}

/// The source database.
pub struct SourceDatabase {
    files: Vec<(FileId, FileInput)>,
    imports: ImportTable,
    imports_version: u64,
    defines: DefineSet,
    defines_version: u64,
    memo_line_index: Vec<(FileId, LineIndexMemo)>,
    memo_parse_raw: Vec<(FileId, ParseRawMemo)>,
    memo_parse_full: Vec<(FileId, ParseFullMemo)>,
    memo_import: Vec<(String, ImportMemo)>,
    memo_import_raw: Vec<(String, ImportRawMemo)>,
    recomputations: u64,
}

impl SourceDatabase {
    /// Version and text currently bound to `id`, if any.
    pub closed spec fn file_entry(self, id: FileId) -> Option<(u64, Seq<char>)> {
        match first_match(self.files@, id) {
            Some(f) => Some((f.version, f.text@)),
            None => None,
        }
    }

    /// Has `id` ever been given text?
    pub open spec fn has_file(self, id: FileId) -> bool {
        self.file_entry(id) is Some
    }

    /// The current text of `id`.
    pub open spec fn file_text_spec(self, id: FileId) -> Seq<char> {
        self.file_entry(id).unwrap().1
    }

    spec fn file_version(self, id: FileId) -> u64 {
        self.file_entry(id).unwrap().0
    }

    /// The current define set.
    pub closed spec fn defines_spec(self) -> Set<Seq<char>> {
        self.defines@
    }

    /// The current import table.
    pub closed spec fn imports_spec(self) -> Map<Seq<char>, Seq<char>> {
        self.imports@
    }

    /// How often any query has recomputed rather than reused a memo entry.
    pub closed spec fn recomputations_spec(self) -> u64 {
        self.recomputations
    }

    /// Setting the file's text once more must be possible: its version
    /// counter has headroom (a machine limit, never reached in practice).
    pub open spec fn can_set_file(self, id: FileId) -> bool {
        match self.file_entry(id) {
            Some((v, _)) => v < u64::MAX,
            None => true,
        }
    }

    /// Version headroom for replacing the import table.
    pub closed spec fn can_set_imports(self) -> bool {
        self.imports_version < u64::MAX
    }

    /// Version headroom for replacing the define set.
    pub closed spec fn can_set_defines(self) -> bool {
        self.defines_version < u64::MAX
    }

    spec fn li_memo(self, id: FileId) -> Option<(u64, Seq<int>)> {
        match first_match(self.memo_line_index@, id) {
            Some(m) => Some((m.file_version, m.value@)),
            None => None,
        }
    }

    spec fn praw_memo(self, id: FileId) -> Option<(u64, Seq<char>)> {
        match first_match(self.memo_parse_raw@, id) {
            Some(m) => Some((m.file_version, m.tree@)),
            None => None,
        }
    }

    spec fn pfull_memo(self, id: FileId) -> Option<(u64, u64, u64, Seq<char>, Seq<UnconfView>)> {
        match first_match(self.memo_parse_full@, id) {
            Some(m) => Some(
                (
                    m.file_version,
                    m.defines_version,
                    m.imports_version,
                    m.tree@,
                    unconf_views(m.unconfigured@),
                ),
            ),
            None => None,
        }
    }

    spec fn imp_memo(self, key: Seq<char>) -> Option<(u64, u64, Option<Seq<char>>)> {
        match first_match(str_entries(self.memo_import@), key) {
            Some(m) => Some(
                (
                    m.imports_version,
                    m.defines_version,
                    match m.value {
                        Some(p) => Some(p@),
                        None => None,
                    },
                ),
            ),
            None => None,
        }
    }

    spec fn impraw_memo(self, key: Seq<char>) -> Option<(u64, Option<Seq<char>>)> {
        match first_match(str_entries(self.memo_import_raw@), key) {
            Some(m) => Some(
                (
                    m.imports_version,
                    match m.value {
                        Some(p) => Some(p@),
                        None => None,
                    },
                ),
            ),
            None => None,
        }
    }

    /// The line-index memo for `id` is fresh: present, and recorded at the
    /// file's current version.
    pub closed spec fn line_index_fresh(self, id: FileId) -> bool {
        match self.li_memo(id) {
            Some((v, _)) => self.has_file(id) && v == self.file_version(id),
            None => false,
        }
    }

    /// The raw-parse memo for `id` is fresh.
    pub closed spec fn parse_raw_fresh(self, id: FileId) -> bool {
        match self.praw_memo(id) {
            Some((v, _)) => self.has_file(id) && v == self.file_version(id),
            None => false,
        }
    }

    /// The full-parse memo for `id` is fresh: recorded at the current
    /// versions of the file's text, the define set, and the import table.
    pub closed spec fn parse_full_fresh(self, id: FileId) -> bool {
        match self.pfull_memo(id) {
            Some((fv, dv, iv, _, _)) => self.has_file(id) && fv == self.file_version(id) && dv
                == self.defines_version && iv == self.imports_version,
            None => false,
        }
    }

    /// The preprocessed-import memo for `key` is fresh.
    pub closed spec fn import_fresh(self, key: Seq<char>) -> bool {
        match self.imp_memo(key) {
            Some((iv, dv, _)) => iv == self.imports_version && dv == self.defines_version,
            None => false,
        }
    }

    /// The raw-import memo for `key` is fresh.
    pub closed spec fn import_raw_fresh(self, key: Seq<char>) -> bool {
        match self.impraw_memo(key) {
            Some((iv, _)) => iv == self.imports_version,
            None => false,
        }
    }

    /// What a preprocessed import-table parse yields for `key`, or `None`
    /// when the key is absent.
    pub open spec fn parse_import_spec(self, key: Seq<char>) -> Option<Seq<char>> {
        if self.imports_spec().contains_key(key) {
            Some(process_spec(self.imports_spec()[key], self.defines_spec()).processed)
        } else {
            None
        }
    }

    /// What a raw import-table parse yields for `key`.
    pub open spec fn parse_import_raw_spec(self, key: Seq<char>) -> Option<Seq<char>> {
        if self.imports_spec().contains_key(key) {
            Some(self.imports_spec()[key])
        } else {
            None
        }
    }

    spec fn li_wf(self) -> bool {
        forall|id: FileId|
            (#[trigger] self.li_memo(id)) is Some ==> {
                let m = self.li_memo(id).unwrap();
                &&& self.has_file(id)
                &&& m.0 <= self.file_version(id)
                &&& (m.0 == self.file_version(id) ==> m.1 == line_starts_spec(
                    self.file_text_spec(id),
                ))
            }
    }

    spec fn praw_wf(self) -> bool {
        forall|id: FileId|
            (#[trigger] self.praw_memo(id)) is Some ==> {
                let m = self.praw_memo(id).unwrap();
                &&& self.has_file(id)
                &&& m.0 <= self.file_version(id)
                &&& (m.0 == self.file_version(id) ==> m.1 == self.file_text_spec(id))
            }
    }

    spec fn pfull_wf(self) -> bool {
        forall|id: FileId|
            (#[trigger] self.pfull_memo(id)) is Some ==> {
                let m = self.pfull_memo(id).unwrap();
                &&& self.has_file(id)
                &&& m.0 <= self.file_version(id)
                &&& m.1 <= self.defines_version
                &&& m.2 <= self.imports_version
                &&& ((m.0 == self.file_version(id) && m.1 == self.defines_version && m.2
                    == self.imports_version) ==> m.3 == parsed_text_spec(
                    self.file_text_spec(id),
                    self.defines_spec(),
                    self.imports_spec(),
                ) && m.4 == process_spec(self.file_text_spec(id), self.defines_spec()).unconfigured)
            }
    }

    spec fn imp_wf(self) -> bool {
        forall|key: Seq<char>|
            (#[trigger] self.imp_memo(key)) is Some ==> {
                let m = self.imp_memo(key).unwrap();
                &&& m.0 <= self.imports_version
                &&& m.1 <= self.defines_version
                &&& ((m.0 == self.imports_version && m.1 == self.defines_version) ==> m.2
                    == self.parse_import_spec(key))
            }
    }

    spec fn impraw_wf(self) -> bool {
        forall|key: Seq<char>|
            (#[trigger] self.impraw_memo(key)) is Some ==> {
                let m = self.impraw_memo(key).unwrap();
                &&& m.0 <= self.imports_version
                &&& (m.0 == self.imports_version ==> m.1 == self.parse_import_raw_spec(key))
            }
    }

    /// The database invariant: every memo entry was recorded at versions no
    /// newer than the current ones, and an entry whose recorded versions all
    /// match the current ones holds exactly the value the pure query
    /// functions give on the current inputs.
    pub closed spec fn wf(self) -> bool {
        &&& self.li_wf()
        &&& self.praw_wf()
        &&& self.pfull_wf()
        &&& self.imp_wf()
        &&& self.impraw_wf()
    }

    proof fn lemma_li_wf_same(pre: SourceDatabase, post: SourceDatabase)
        requires
            pre.li_wf(),
            post.memo_line_index@ == pre.memo_line_index@,
            forall|g: FileId| post.file_entry(g) == pre.file_entry(g),
        ensures
            post.li_wf(),
    {
        assert forall|id: FileId| (#[trigger] post.li_memo(id)) is Some implies {
            let m = post.li_memo(id).unwrap();
            &&& post.has_file(id)
            &&& m.0 <= post.file_version(id)
            &&& (m.0 == post.file_version(id) ==> m.1 == line_starts_spec(post.file_text_spec(id)))
        } by {
            assert(post.li_memo(id) == pre.li_memo(id));
            assert(post.file_entry(id) == pre.file_entry(id));
        }
    }

    proof fn lemma_praw_wf_same(pre: SourceDatabase, post: SourceDatabase)
        requires
            pre.praw_wf(),
            post.memo_parse_raw@ == pre.memo_parse_raw@,
            forall|g: FileId| post.file_entry(g) == pre.file_entry(g),
        ensures
            post.praw_wf(),
    {
        assert forall|id: FileId| (#[trigger] post.praw_memo(id)) is Some implies {
            let m = post.praw_memo(id).unwrap();
            &&& post.has_file(id)
            &&& m.0 <= post.file_version(id)
            &&& (m.0 == post.file_version(id) ==> m.1 == post.file_text_spec(id))
        } by {
            assert(post.praw_memo(id) == pre.praw_memo(id));
            assert(post.file_entry(id) == pre.file_entry(id));
        }
    }

    proof fn lemma_pfull_wf_same(pre: SourceDatabase, post: SourceDatabase)
        requires
            pre.pfull_wf(),
            post.memo_parse_full@ == pre.memo_parse_full@,
            forall|g: FileId| post.file_entry(g) == pre.file_entry(g),
            post.defines_version == pre.defines_version,
            post.imports_version == pre.imports_version,
            post.defines_spec() == pre.defines_spec(),
            post.imports_spec() == pre.imports_spec(),
        ensures
            post.pfull_wf(),
    {
        assert forall|id: FileId| (#[trigger] post.pfull_memo(id)) is Some implies {
            let m = post.pfull_memo(id).unwrap();
            &&& post.has_file(id)
            &&& m.0 <= post.file_version(id)
            &&& m.1 <= post.defines_version
            &&& m.2 <= post.imports_version
            &&& ((m.0 == post.file_version(id) && m.1 == post.defines_version && m.2
                == post.imports_version) ==> m.3 == parsed_text_spec(
                post.file_text_spec(id),
                post.defines_spec(),
                post.imports_spec(),
            ) && m.4 == process_spec(post.file_text_spec(id), post.defines_spec()).unconfigured)
        } by {
            assert(post.pfull_memo(id) == pre.pfull_memo(id));
            assert(post.file_entry(id) == pre.file_entry(id));
        }
    }

    proof fn lemma_imp_wf_same(pre: SourceDatabase, post: SourceDatabase)
        requires
            pre.imp_wf(),
            post.memo_import@ == pre.memo_import@,
            post.defines_version == pre.defines_version,
            post.imports_version == pre.imports_version,
            post.defines_spec() == pre.defines_spec(),
            post.imports_spec() == pre.imports_spec(),
        ensures
            post.imp_wf(),
    {
        assert forall|key: Seq<char>| (#[trigger] post.imp_memo(key)) is Some implies {
            let m = post.imp_memo(key).unwrap();
            &&& m.0 <= post.imports_version
            &&& m.1 <= post.defines_version
            &&& ((m.0 == post.imports_version && m.1 == post.defines_version) ==> m.2
                == post.parse_import_spec(key))
        } by {
            assert(post.imp_memo(key) == pre.imp_memo(key));
            assert(post.parse_import_spec(key) == pre.parse_import_spec(key));
        }
    }

    proof fn lemma_impraw_wf_same(pre: SourceDatabase, post: SourceDatabase)
        requires
            pre.impraw_wf(),
            post.memo_import_raw@ == pre.memo_import_raw@,
            post.imports_version == pre.imports_version,
            post.imports_spec() == pre.imports_spec(),
        ensures
            post.impraw_wf(),
    {
        assert forall|key: Seq<char>| (#[trigger] post.impraw_memo(key)) is Some implies {
            let m = post.impraw_memo(key).unwrap();
            &&& m.0 <= post.imports_version
            &&& (m.0 == post.imports_version ==> m.1 == post.parse_import_raw_spec(key))
        } by {
            assert(post.impraw_memo(key) == pre.impraw_memo(key));
            assert(post.parse_import_raw_spec(key) == pre.parse_import_raw_spec(key));
        }
    }

    /// An empty database: no files, empty import table, empty define set.
    pub fn new() -> (r: SourceDatabase)
        ensures
            r.wf(),
            forall|id: FileId| (#[trigger] r.file_entry(id)) is None,
            r.defines_spec() == Set::<Seq<char>>::empty(),
            r.imports_spec() == Map::<Seq<char>, Seq<char>>::empty(),
            r.recomputations_spec() == 0,
            r.can_set_imports(),
            r.can_set_defines(),
            forall|id: FileId| !(#[trigger] r.line_index_fresh(id)),
            forall|id: FileId| !(#[trigger] r.parse_raw_fresh(id)),
            forall|id: FileId| !(#[trigger] r.parse_full_fresh(id)),
            forall|key: Seq<char>| !(#[trigger] r.import_fresh(key)),
            forall|key: Seq<char>| !(#[trigger] r.import_raw_fresh(key)),
    {
        let r = SourceDatabase {
            files: Vec::new(),
            imports: ImportTable::new(),
            imports_version: 0,
            defines: DefineSet::new(),
            defines_version: 0,
            memo_line_index: Vec::new(),
            memo_parse_raw: Vec::new(),
            memo_parse_full: Vec::new(),
            memo_import: Vec::new(),
            memo_import_raw: Vec::new(),
            recomputations: 0,
        };
        proof {
            assert(str_entries(r.memo_import@) =~= Seq::<(Seq<char>, ImportMemo)>::empty());
            assert(str_entries(r.memo_import_raw@) =~= Seq::<(Seq<char>, ImportRawMemo)>::empty());
        }
        r
    }

    /// The current text of `id`. The file must have been given text; the
    /// input store holds no default.
    pub fn file_text(&self, file_id: FileId) -> (r: &String)
        requires
            self.has_file(file_id),
        ensures
            r@ == self.file_text_spec(file_id),
    {
        let idx = find_by_file(&self.files, file_id).unwrap();
        &self.files[idx].1.text
    }

    /// The current import table.
    pub fn custom_imports(&self) -> (r: &ImportTable)
        ensures
            r@ == self.imports_spec(),
    {
        &self.imports
    }

    /// The current define set.
    pub fn shader_defs(&self) -> (r: &DefineSet)
        ensures
            r@ == self.defines_spec(),
    {
        &self.defines
    }

    /// Observability hook: how often any query has recomputed rather than
    /// reused a fresh memo entry.
    pub fn recomputations(&self) -> (r: u64)
        ensures
            r == self.recomputations_spec(),
    {
        self.recomputations
    }

    /// Replace the whole text of `file_id`, creating the file on first use.
    /// Every cached result that read the old text is stale before its next
    /// read; cached results for other inputs stay as they were.
    pub fn set_file_text(&mut self, file_id: FileId, text: String)
        requires
            old(self).wf(),
            old(self).can_set_file(file_id),
        ensures
            final(self).wf(),
            final(self).has_file(file_id),
            final(self).file_text_spec(file_id) == text@,
            forall|g: FileId|
                g != file_id ==> final(self).file_entry(g) == old(self).file_entry(g),
            final(self).defines_spec() == old(self).defines_spec(),
            final(self).imports_spec() == old(self).imports_spec(),
            final(self).can_set_imports() == old(self).can_set_imports(),
            final(self).can_set_defines() == old(self).can_set_defines(),
            !final(self).line_index_fresh(file_id),
            !final(self).parse_raw_fresh(file_id),
            !final(self).parse_full_fresh(file_id),
            forall|g: FileId|
                g != file_id ==> final(self).line_index_fresh(g) == old(self).line_index_fresh(g),
            forall|g: FileId|
                g != file_id ==> final(self).parse_raw_fresh(g) == old(self).parse_raw_fresh(g),
            forall|g: FileId|
                g != file_id ==> final(self).parse_full_fresh(g) == old(self).parse_full_fresh(g),
            forall|key: Seq<char>|
                final(self).import_fresh(key) == old(self).import_fresh(key),
            forall|key: Seq<char>|
                final(self).import_raw_fresh(key) == old(self).import_raw_fresh(key),
            final(self).recomputations_spec() == old(self).recomputations_spec(),
    {
        let new_version: u64 = match find_by_file(&self.files, file_id) {
            Some(idx) => self.files[idx].1.version + 1,
            None => 1,
        };
        self.files.insert(0, (file_id, FileInput { version: new_version, text }));
        proof {
            let pre = *old(self);
            let e = self.files@[0];
            assert(self.files@ =~= seq![e] + pre.files@);
            lemma_first_match_prepend(pre.files@, e);
            assert(self.file_entry(file_id) == Some((new_version, text@)));
            assert forall|g: FileId| g != file_id implies self.file_entry(g) == pre.file_entry(
                g,
            ) by {
                assert(first_match(self.files@, g) == first_match(pre.files@, g));
            }
            assert(match pre.file_entry(file_id) {
                Some((v, _)) => v < new_version,
                None => true,
            });
            assert forall|id: FileId| (#[trigger] self.li_memo(id)) is Some implies {
                let m = self.li_memo(id).unwrap();
                &&& self.has_file(id)
                &&& m.0 <= self.file_version(id)
                &&& (m.0 == self.file_version(id) ==> m.1 == line_starts_spec(
                    self.file_text_spec(id),
                ))
            } by {
                assert(self.li_memo(id) == pre.li_memo(id));
                if id != file_id {
                    assert(self.file_entry(id) == pre.file_entry(id));
                }
            }
            assert forall|id: FileId| (#[trigger] self.praw_memo(id)) is Some implies {
                let m = self.praw_memo(id).unwrap();
                &&& self.has_file(id)
                &&& m.0 <= self.file_version(id)
                &&& (m.0 == self.file_version(id) ==> m.1 == self.file_text_spec(id))
            } by {
                assert(self.praw_memo(id) == pre.praw_memo(id));
                if id != file_id {
                    assert(self.file_entry(id) == pre.file_entry(id));
                }
            }
            assert forall|id: FileId| (#[trigger] self.pfull_memo(id)) is Some implies {
                let m = self.pfull_memo(id).unwrap();
                &&& self.has_file(id)
                &&& m.0 <= self.file_version(id)
                &&& m.1 <= self.defines_version
                &&& m.2 <= self.imports_version
                &&& ((m.0 == self.file_version(id) && m.1 == self.defines_version && m.2
                    == self.imports_version) ==> m.3 == parsed_text_spec(
                    self.file_text_spec(id),
                    self.defines_spec(),
                    self.imports_spec(),
                ) && m.4 == process_spec(
                    self.file_text_spec(id),
                    self.defines_spec(),
                ).unconfigured)
            } by {
                assert(self.pfull_memo(id) == pre.pfull_memo(id));
                if id != file_id {
                    assert(self.file_entry(id) == pre.file_entry(id));
                }
            }
            assert forall|key: Seq<char>| (#[trigger] self.imp_memo(key)) is Some implies {
                let m = self.imp_memo(key).unwrap();
                &&& m.0 <= self.imports_version
                &&& m.1 <= self.defines_version
                &&& ((m.0 == self.imports_version && m.1 == self.defines_version) ==> m.2
                    == self.parse_import_spec(key))
            } by {
                assert(self.imp_memo(key) == pre.imp_memo(key));
                assert(self.parse_import_spec(key) == pre.parse_import_spec(key));
            }
            assert forall|key: Seq<char>| (#[trigger] self.impraw_memo(key)) is Some implies {
                let m = self.impraw_memo(key).unwrap();
                &&& m.0 <= self.imports_version
                &&& (m.0 == self.imports_version ==> m.1 == self.parse_import_raw_spec(key))
            } by {
                assert(self.impraw_memo(key) == pre.impraw_memo(key));
                assert(self.parse_import_raw_spec(key) == pre.parse_import_raw_spec(key));
            }
            assert(self.li_memo(file_id) == pre.li_memo(file_id));
            assert(self.praw_memo(file_id) == pre.praw_memo(file_id));
            assert(self.pfull_memo(file_id) == pre.pfull_memo(file_id));
            match pre.li_memo(file_id) {
                Some(m) => {
                    assert(pre.has_file(file_id));
                    assert(m.0 <= pre.file_version(file_id));
                    assert(m.0 < new_version);
                },
                None => {},
            }
            match pre.praw_memo(file_id) {
                Some(m) => {
                    assert(pre.has_file(file_id));
                    assert(m.0 <= pre.file_version(file_id));
                    assert(m.0 < new_version);
                },
                None => {},
            }
            match pre.pfull_memo(file_id) {
                Some(m) => {
                    assert(pre.has_file(file_id));
                    assert(m.0 <= pre.file_version(file_id));
                    assert(m.0 < new_version);
                },
                None => {},
            }
            assert(!self.line_index_fresh(file_id));
            assert(!self.parse_raw_fresh(file_id));
            assert(!self.parse_full_fresh(file_id));
            assert forall|g: FileId| g != file_id implies self.line_index_fresh(g)
                == pre.line_index_fresh(g) by {
                assert(self.li_memo(g) == pre.li_memo(g));
                assert(self.file_entry(g) == pre.file_entry(g));
            }
            assert forall|g: FileId| g != file_id implies self.parse_raw_fresh(g)
                == pre.parse_raw_fresh(g) by {
                assert(self.praw_memo(g) == pre.praw_memo(g));
                assert(self.file_entry(g) == pre.file_entry(g));
            }
            assert forall|g: FileId| g != file_id implies self.parse_full_fresh(g)
                == pre.parse_full_fresh(g) by {
                assert(self.pfull_memo(g) == pre.pfull_memo(g));
                assert(self.file_entry(g) == pre.file_entry(g));
            }
            assert forall|key: Seq<char>| self.import_fresh(key) == pre.import_fresh(key) by {
                assert(self.imp_memo(key) == pre.imp_memo(key));
            }
            assert forall|key: Seq<char>|
                self.import_raw_fresh(key) == pre.import_raw_fresh(key) by {
                assert(self.impraw_memo(key) == pre.impraw_memo(key));
            }
        }
    }

    /// Replace the whole import table. Full parses and import parses become
    /// stale; line indexes and raw parses are untouched.
    pub fn set_custom_imports(&mut self, imports: ImportTable)
        requires
            old(self).wf(),
            old(self).can_set_imports(),
        ensures
            final(self).wf(),
            final(self).imports_spec() == imports@,
            final(self).defines_spec() == old(self).defines_spec(),
            final(self).can_set_defines() == old(self).can_set_defines(),
            forall|g: FileId| final(self).file_entry(g) == old(self).file_entry(g),
            forall|g: FileId|
                final(self).line_index_fresh(g) == old(self).line_index_fresh(g),
            forall|g: FileId|
                final(self).parse_raw_fresh(g) == old(self).parse_raw_fresh(g),
            forall|g: FileId| !(#[trigger] final(self).parse_full_fresh(g)),
            forall|key: Seq<char>| !(#[trigger] final(self).import_fresh(key)),
            forall|key: Seq<char>| !(#[trigger] final(self).import_raw_fresh(key)),
            final(self).recomputations_spec() == old(self).recomputations_spec(),
    {
        self.imports = imports;
        self.imports_version = self.imports_version + 1;
        proof {
            let pre = *old(self);
            assert forall|id: FileId| (#[trigger] self.li_memo(id)) is Some implies {
                let m = self.li_memo(id).unwrap();
                &&& self.has_file(id)
                &&& m.0 <= self.file_version(id)
                &&& (m.0 == self.file_version(id) ==> m.1 == line_starts_spec(
                    self.file_text_spec(id),
                ))
            } by {
                assert(self.li_memo(id) == pre.li_memo(id));
                assert(self.file_entry(id) == pre.file_entry(id));
            }
            assert forall|id: FileId| (#[trigger] self.praw_memo(id)) is Some implies {
                let m = self.praw_memo(id).unwrap();
                &&& self.has_file(id)
                &&& m.0 <= self.file_version(id)
                &&& (m.0 == self.file_version(id) ==> m.1 == self.file_text_spec(id))
            } by {
                assert(self.praw_memo(id) == pre.praw_memo(id));
                assert(self.file_entry(id) == pre.file_entry(id));
            }
            assert forall|id: FileId| (#[trigger] self.pfull_memo(id)) is Some implies {
                let m = self.pfull_memo(id).unwrap();
                &&& self.has_file(id)
                &&& m.0 <= self.file_version(id)
                &&& m.1 <= self.defines_version
                &&& m.2 < self.imports_version
            } by {
                assert(self.pfull_memo(id) == pre.pfull_memo(id));
                assert(self.file_entry(id) == pre.file_entry(id));
            }
            assert forall|key: Seq<char>| (#[trigger] self.imp_memo(key)) is Some implies {
                let m = self.imp_memo(key).unwrap();
                &&& m.0 < self.imports_version
                &&& m.1 <= self.defines_version
            } by {
                assert(self.imp_memo(key) == pre.imp_memo(key));
            }
            assert forall|key: Seq<char>| (#[trigger] self.impraw_memo(key)) is Some implies {
                let m = self.impraw_memo(key).unwrap();
                m.0 < self.imports_version
            } by {
                assert(self.impraw_memo(key) == pre.impraw_memo(key));
            }
            assert forall|g: FileId| self.line_index_fresh(g) == pre.line_index_fresh(g) by {
                assert(self.li_memo(g) == pre.li_memo(g));
                assert(self.file_entry(g) == pre.file_entry(g));
            }
            assert forall|g: FileId| self.parse_raw_fresh(g) == pre.parse_raw_fresh(g) by {
                assert(self.praw_memo(g) == pre.praw_memo(g));
                assert(self.file_entry(g) == pre.file_entry(g));
            }
        }
    }

    /// Replace the whole define set. Full parses and preprocessed import
    /// parses become stale; line indexes, raw parses, and raw import parses
    /// are untouched.
    pub fn set_shader_defs(&mut self, defines: DefineSet)
        requires
            old(self).wf(),
            old(self).can_set_defines(),
        ensures
            final(self).wf(),
            final(self).defines_spec() == defines@,
            final(self).imports_spec() == old(self).imports_spec(),
            final(self).can_set_imports() == old(self).can_set_imports(),
            forall|g: FileId| final(self).file_entry(g) == old(self).file_entry(g),
            forall|g: FileId|
                final(self).line_index_fresh(g) == old(self).line_index_fresh(g),
            forall|g: FileId|
                final(self).parse_raw_fresh(g) == old(self).parse_raw_fresh(g),
            forall|g: FileId| !(#[trigger] final(self).parse_full_fresh(g)),
            forall|key: Seq<char>| !(#[trigger] final(self).import_fresh(key)),
            forall|key: Seq<char>|
                final(self).import_raw_fresh(key) == old(self).import_raw_fresh(key),
            final(self).recomputations_spec() == old(self).recomputations_spec(),
    {
        self.defines = defines;
        self.defines_version = self.defines_version + 1;
        proof {
            let pre = *old(self);
            assert forall|id: FileId| (#[trigger] self.li_memo(id)) is Some implies {
                let m = self.li_memo(id).unwrap();
                &&& self.has_file(id)
                &&& m.0 <= self.file_version(id)
                &&& (m.0 == self.file_version(id) ==> m.1 == line_starts_spec(
                    self.file_text_spec(id),
                ))
            } by {
                assert(self.li_memo(id) == pre.li_memo(id));
                assert(self.file_entry(id) == pre.file_entry(id));
            }
            assert forall|id: FileId| (#[trigger] self.praw_memo(id)) is Some implies {
                let m = self.praw_memo(id).unwrap();
                &&& self.has_file(id)
                &&& m.0 <= self.file_version(id)
                &&& (m.0 == self.file_version(id) ==> m.1 == self.file_text_spec(id))
            } by {
                assert(self.praw_memo(id) == pre.praw_memo(id));
                assert(self.file_entry(id) == pre.file_entry(id));
            }
            assert forall|id: FileId| (#[trigger] self.pfull_memo(id)) is Some implies {
                let m = self.pfull_memo(id).unwrap();
                &&& self.has_file(id)
                &&& m.0 <= self.file_version(id)
                &&& m.1 < self.defines_version
                &&& m.2 <= self.imports_version
            } by {
                assert(self.pfull_memo(id) == pre.pfull_memo(id));
                assert(self.file_entry(id) == pre.file_entry(id));
            }
            assert forall|key: Seq<char>| (#[trigger] self.imp_memo(key)) is Some implies {
                let m = self.imp_memo(key).unwrap();
                &&& m.0 <= self.imports_version
                &&& m.1 < self.defines_version
            } by {
                assert(self.imp_memo(key) == pre.imp_memo(key));
            }
            assert forall|key: Seq<char>| (#[trigger] self.impraw_memo(key)) is Some implies {
                let m = self.impraw_memo(key).unwrap();
                &&& m.0 <= self.imports_version
                &&& (m.0 == self.imports_version ==> m.1 == self.parse_import_raw_spec(key))
            } by {
                assert(self.impraw_memo(key) == pre.impraw_memo(key));
                assert(self.parse_import_raw_spec(key) == pre.parse_import_raw_spec(key));
            }
            assert forall|g: FileId| self.line_index_fresh(g) == pre.line_index_fresh(g) by {
                assert(self.li_memo(g) == pre.li_memo(g));
                assert(self.file_entry(g) == pre.file_entry(g));
            }
            assert forall|g: FileId| self.parse_raw_fresh(g) == pre.parse_raw_fresh(g) by {
                assert(self.praw_memo(g) == pre.praw_memo(g));
                assert(self.file_entry(g) == pre.file_entry(g));
            }
            assert forall|key: Seq<char>|
                self.import_raw_fresh(key) == pre.import_raw_fresh(key) by {
                assert(self.impraw_memo(key) == pre.impraw_memo(key));
            }
        }
    }

    fn note_recompute(&mut self)
        ensures
            *final(self) == (SourceDatabase {
                recomputations: final(self).recomputations,
                ..*old(self)
            }),
    {
        if self.recomputations < u64::MAX {
            self.recomputations = self.recomputations + 1;
        }
    }

    /// The line index of `file_id`'s current text, memoized against the
    /// file's version: a fresh memo entry is returned without recomputation.
    pub fn line_index(&mut self, file_id: FileId) -> (r: LineIndex)
        requires
            old(self).wf(),
            old(self).has_file(file_id),
        ensures
            final(self).wf(),
            r@ == line_starts_spec(old(self).file_text_spec(file_id)),
            r.wf(),
            forall|g: FileId| final(self).file_entry(g) == old(self).file_entry(g),
            final(self).defines_spec() == old(self).defines_spec(),
            final(self).imports_spec() == old(self).imports_spec(),
            final(self).can_set_imports() == old(self).can_set_imports(),
            final(self).can_set_defines() == old(self).can_set_defines(),
            final(self).line_index_fresh(file_id),
            forall|g: FileId|
                g != file_id ==> final(self).line_index_fresh(g) == old(self).line_index_fresh(g),
            forall|g: FileId| final(self).parse_raw_fresh(g) == old(self).parse_raw_fresh(g),
            forall|g: FileId| final(self).parse_full_fresh(g) == old(self).parse_full_fresh(g),
            forall|key: Seq<char>| final(self).import_fresh(key) == old(self).import_fresh(key),
            forall|key: Seq<char>|
                final(self).import_raw_fresh(key) == old(self).import_raw_fresh(key),
            old(self).line_index_fresh(file_id) ==> final(self).recomputations_spec() == old(
                self,
            ).recomputations_spec(),
    {
        let idx = find_by_file(&self.files, file_id).unwrap();
        let file_version = self.files[idx].1.version;
        proof {
            assert(self.file_entry(file_id) == Some(
                (file_version, self.files@[idx as int].1.text@),
            ));
        }
        match find_by_file(&self.memo_line_index, file_id) {
            Some(m) => {
                if self.memo_line_index[m].1.file_version == file_version {
                    let r = self.memo_line_index[m].1.value.clone();
                    proof {
                        let entry = self.memo_line_index@[m as int].1;
                        assert(self.li_memo(file_id) == Some((entry.file_version, entry.value@)));
                        assert(r@ == line_starts_spec(self.file_text_spec(file_id)));
                        lemma_line_starts_wf(self.file_text_spec(file_id));
                    }
                    return r;
                }
            },
            None => {},
        }
        let li = LineIndex::new(self.files[idx].1.text.as_str());
        let stored = li.clone();
        self.memo_line_index.insert(0, (file_id, LineIndexMemo { file_version, value: stored }));
        self.note_recompute();
        proof {
            let pre = *old(self);
            let e = self.memo_line_index@[0];
            assert(self.memo_line_index@ =~= seq![e] + pre.memo_line_index@);
            lemma_first_match_prepend(pre.memo_line_index@, e);
            assert(self.li_memo(file_id) == Some((file_version, li@)));
            assert forall|g: FileId| g != file_id implies self.li_memo(g) == pre.li_memo(g) by {
                assert(first_match(self.memo_line_index@, g) == first_match(
                    pre.memo_line_index@,
                    g,
                ));
            }
            assert forall|id: FileId| (#[trigger] self.li_memo(id)) is Some implies {
                let m2 = self.li_memo(id).unwrap();
                &&& self.has_file(id)
                &&& m2.0 <= self.file_version(id)
                &&& (m2.0 == self.file_version(id) ==> m2.1 == line_starts_spec(
                    self.file_text_spec(id),
                ))
            } by {
                if id != file_id {
                    assert(self.li_memo(id) == pre.li_memo(id));
                }
                assert(self.file_entry(id) == pre.file_entry(id));
            }
            Self::lemma_praw_wf_same(pre, *self);
            Self::lemma_pfull_wf_same(pre, *self);
            Self::lemma_imp_wf_same(pre, *self);
            Self::lemma_impraw_wf_same(pre, *self);
            assert forall|g: FileId| g != file_id implies self.line_index_fresh(g)
                == pre.line_index_fresh(g) by {
                assert(self.li_memo(g) == pre.li_memo(g));
                assert(self.file_entry(g) == pre.file_entry(g));
            }
            assert forall|g: FileId| self.parse_raw_fresh(g) == pre.parse_raw_fresh(g) by {
                assert(self.praw_memo(g) == pre.praw_memo(g));
                assert(self.file_entry(g) == pre.file_entry(g));
            }
            assert forall|g: FileId| self.parse_full_fresh(g) == pre.parse_full_fresh(g) by {
                assert(self.pfull_memo(g) == pre.pfull_memo(g));
                assert(self.file_entry(g) == pre.file_entry(g));
            }
            assert forall|key: Seq<char>| self.import_fresh(key) == pre.import_fresh(key) by {
                assert(self.imp_memo(key) == pre.imp_memo(key));
            }
            assert forall|key: Seq<char>|
                self.import_raw_fresh(key) == pre.import_raw_fresh(key) by {
                assert(self.impraw_memo(key) == pre.impraw_memo(key));
            }
        }
        li
    }

    /// Parse `file_id`'s raw text, bypassing preprocessing — the diagnostic
    /// path; memoized against the file's version.
    pub fn parse_no_preprocessor(&mut self, file_id: FileId) -> (r: Parse)
        requires
            old(self).wf(),
            old(self).has_file(file_id),
        ensures
            final(self).wf(),
            r@ == old(self).file_text_spec(file_id),
            forall|g: FileId| final(self).file_entry(g) == old(self).file_entry(g),
            final(self).defines_spec() == old(self).defines_spec(),
            final(self).imports_spec() == old(self).imports_spec(),
            final(self).can_set_imports() == old(self).can_set_imports(),
            final(self).can_set_defines() == old(self).can_set_defines(),
            final(self).parse_raw_fresh(file_id),
            forall|g: FileId|
                g != file_id ==> final(self).parse_raw_fresh(g) == old(self).parse_raw_fresh(g),
            forall|g: FileId| final(self).line_index_fresh(g) == old(self).line_index_fresh(g),
            forall|g: FileId| final(self).parse_full_fresh(g) == old(self).parse_full_fresh(g),
            forall|key: Seq<char>| final(self).import_fresh(key) == old(self).import_fresh(key),
            forall|key: Seq<char>|
                final(self).import_raw_fresh(key) == old(self).import_raw_fresh(key),
            old(self).parse_raw_fresh(file_id) ==> final(self).recomputations_spec() == old(
                self,
            ).recomputations_spec(),
    {
        let idx = find_by_file(&self.files, file_id).unwrap();
        let file_version = self.files[idx].1.version;
        proof {
            assert(self.file_entry(file_id) == Some(
                (file_version, self.files@[idx as int].1.text@),
            ));
        }
        match find_by_file(&self.memo_parse_raw, file_id) {
            Some(m) => {
                if self.memo_parse_raw[m].1.file_version == file_version {
                    let r = self.memo_parse_raw[m].1.tree.clone();
                    proof {
                        let entry = self.memo_parse_raw@[m as int].1;
                        assert(self.praw_memo(file_id) == Some((entry.file_version, entry.tree@)));
                    }
                    return r;
                }
            },
            None => {},
        }
        let tree = parse(self.files[idx].1.text.as_str());
        let stored = tree.clone();
        self.memo_parse_raw.insert(0, (file_id, ParseRawMemo { file_version, tree: stored }));
        self.note_recompute();
        proof {
            let pre = *old(self);
            let e = self.memo_parse_raw@[0];
            assert(self.memo_parse_raw@ =~= seq![e] + pre.memo_parse_raw@);
            lemma_first_match_prepend(pre.memo_parse_raw@, e);
            assert(self.praw_memo(file_id) == Some((file_version, tree@)));
            assert forall|g: FileId| g != file_id implies self.praw_memo(g) == pre.praw_memo(
                g,
            ) by {
                assert(first_match(self.memo_parse_raw@, g) == first_match(
                    pre.memo_parse_raw@,
                    g,
                ));
            }
            assert forall|id: FileId| (#[trigger] self.praw_memo(id)) is Some implies {
                let m2 = self.praw_memo(id).unwrap();
                &&& self.has_file(id)
                &&& m2.0 <= self.file_version(id)
                &&& (m2.0 == self.file_version(id) ==> m2.1 == self.file_text_spec(id))
            } by {
                if id != file_id {
                    assert(self.praw_memo(id) == pre.praw_memo(id));
                }
                assert(self.file_entry(id) == pre.file_entry(id));
            }
            Self::lemma_li_wf_same(pre, *self);
            Self::lemma_pfull_wf_same(pre, *self);
            Self::lemma_imp_wf_same(pre, *self);
            Self::lemma_impraw_wf_same(pre, *self);
            assert forall|g: FileId| g != file_id implies self.parse_raw_fresh(g)
                == pre.parse_raw_fresh(g) by {
                assert(self.praw_memo(g) == pre.praw_memo(g));
                assert(self.file_entry(g) == pre.file_entry(g));
            }
            assert forall|g: FileId| self.line_index_fresh(g) == pre.line_index_fresh(g) by {
                assert(self.li_memo(g) == pre.li_memo(g));
                assert(self.file_entry(g) == pre.file_entry(g));
            }
            assert forall|g: FileId| self.parse_full_fresh(g) == pre.parse_full_fresh(g) by {
                assert(self.pfull_memo(g) == pre.pfull_memo(g));
                assert(self.file_entry(g) == pre.file_entry(g));
            }
            assert forall|key: Seq<char>| self.import_fresh(key) == pre.import_fresh(key) by {
                assert(self.imp_memo(key) == pre.imp_memo(key));
            }
            assert forall|key: Seq<char>|
                self.import_raw_fresh(key) == pre.import_raw_fresh(key) by {
                assert(self.impraw_memo(key) == pre.impraw_memo(key));
            }
        }
        tree
    }

    /// Full parse of `file_id`: the current text is preprocessed under the
    /// current define set, import occurrences are spliced from the current
    /// table, and the spliced text is parsed. The tree reflects the
    /// post-substitution text; the elided-block list is reported in original
    /// source coordinates. Memoized against all three input versions.
    pub fn parse_with_unconfigured(&mut self, file_id: FileId) -> (r: (
        Parse,
        Vec<UnconfiguredCode>,
    ))
        requires
            old(self).wf(),
            old(self).has_file(file_id),
        ensures
            final(self).wf(),
            r.0@ == parsed_text_spec(
                old(self).file_text_spec(file_id),
                old(self).defines_spec(),
                old(self).imports_spec(),
            ),
            unconf_views(r.1@) == process_spec(
                old(self).file_text_spec(file_id),
                old(self).defines_spec(),
            ).unconfigured,
            forall|g: FileId| final(self).file_entry(g) == old(self).file_entry(g),
            final(self).defines_spec() == old(self).defines_spec(),
            final(self).imports_spec() == old(self).imports_spec(),
            final(self).can_set_imports() == old(self).can_set_imports(),
            final(self).can_set_defines() == old(self).can_set_defines(),
            final(self).parse_full_fresh(file_id),
            forall|g: FileId|
                g != file_id ==> final(self).parse_full_fresh(g) == old(self).parse_full_fresh(g),
            forall|g: FileId| final(self).line_index_fresh(g) == old(self).line_index_fresh(g),
            forall|g: FileId| final(self).parse_raw_fresh(g) == old(self).parse_raw_fresh(g),
            forall|key: Seq<char>| final(self).import_fresh(key) == old(self).import_fresh(key),
            forall|key: Seq<char>|
                final(self).import_raw_fresh(key) == old(self).import_raw_fresh(key),
            old(self).parse_full_fresh(file_id) ==> final(self).recomputations_spec() == old(
                self,
            ).recomputations_spec(),
    {
        let idx = find_by_file(&self.files, file_id).unwrap();
        let file_version = self.files[idx].1.version;
        proof {
            assert(self.file_entry(file_id) == Some(
                (file_version, self.files@[idx as int].1.text@),
            ));
        }
        match find_by_file(&self.memo_parse_full, file_id) {
            Some(m) => {
                let hit = self.memo_parse_full[m].1.file_version == file_version
                    && self.memo_parse_full[m].1.defines_version == self.defines_version
                    && self.memo_parse_full[m].1.imports_version == self.imports_version;
                if hit {
                    let tree = self.memo_parse_full[m].1.tree.clone();
                    let unconf = clone_unconfigured(&self.memo_parse_full[m].1.unconfigured);
                    proof {
                        let entry = self.memo_parse_full@[m as int].1;
                        assert(self.pfull_memo(file_id) == Some(
                            (
                                entry.file_version,
                                entry.defines_version,
                                entry.imports_version,
                                entry.tree@,
                                unconf_views(entry.unconfigured@),
                            ),
                        ));
                    }
                    return (tree, unconf);
                }
            },
            None => {},
        }
        let processed = process(self.files[idx].1.text.as_str(), &self.defines);
        let spliced = splice(processed.text.as_str(), &processed.occurrences, &self.imports);
        let tree = parse(spliced.as_str());
        let stored_tree = tree.clone();
        let stored_unconf = clone_unconfigured(&processed.unconfigured);
        let defines_version = self.defines_version;
        let imports_version = self.imports_version;
        self.memo_parse_full.insert(
            0,
            (
                file_id,
                ParseFullMemo {
                    file_version,
                    defines_version,
                    imports_version,
                    tree: stored_tree,
                    unconfigured: stored_unconf,
                },
            ),
        );
        self.note_recompute();
        proof {
            let pre = *old(self);
            let e = self.memo_parse_full@[0];
            assert(self.memo_parse_full@ =~= seq![e] + pre.memo_parse_full@);
            lemma_first_match_prepend(pre.memo_parse_full@, e);
            assert(self.pfull_memo(file_id) == Some(
                (
                    file_version,
                    defines_version,
                    imports_version,
                    tree@,
                    unconf_views(processed.unconfigured@),
                ),
            ));
            assert forall|g: FileId| g != file_id implies self.pfull_memo(g) == pre.pfull_memo(
                g,
            ) by {
                assert(first_match(self.memo_parse_full@, g) == first_match(
                    pre.memo_parse_full@,
                    g,
                ));
            }
            assert forall|id: FileId| (#[trigger] self.pfull_memo(id)) is Some implies {
                let m2 = self.pfull_memo(id).unwrap();
                &&& self.has_file(id)
                &&& m2.0 <= self.file_version(id)
                &&& m2.1 <= self.defines_version
                &&& m2.2 <= self.imports_version
                &&& ((m2.0 == self.file_version(id) && m2.1 == self.defines_version && m2.2
                    == self.imports_version) ==> m2.3 == parsed_text_spec(
                    self.file_text_spec(id),
                    self.defines_spec(),
                    self.imports_spec(),
                ) && m2.4 == process_spec(
                    self.file_text_spec(id),
                    self.defines_spec(),
                ).unconfigured)
            } by {
                if id != file_id {
                    assert(self.pfull_memo(id) == pre.pfull_memo(id));
                }
                assert(self.file_entry(id) == pre.file_entry(id));
            }
            Self::lemma_li_wf_same(pre, *self);
            Self::lemma_praw_wf_same(pre, *self);
            Self::lemma_imp_wf_same(pre, *self);
            Self::lemma_impraw_wf_same(pre, *self);
            assert forall|g: FileId| g != file_id implies self.parse_full_fresh(g)
                == pre.parse_full_fresh(g) by {
                assert(self.pfull_memo(g) == pre.pfull_memo(g));
                assert(self.file_entry(g) == pre.file_entry(g));
            }
            assert forall|g: FileId| self.line_index_fresh(g) == pre.line_index_fresh(g) by {
                assert(self.li_memo(g) == pre.li_memo(g));
                assert(self.file_entry(g) == pre.file_entry(g));
            }
            assert forall|g: FileId| self.parse_raw_fresh(g) == pre.parse_raw_fresh(g) by {
                assert(self.praw_memo(g) == pre.praw_memo(g));
                assert(self.file_entry(g) == pre.file_entry(g));
            }
            assert forall|key: Seq<char>| self.import_fresh(key) == pre.import_fresh(key) by {
                assert(self.imp_memo(key) == pre.imp_memo(key));
            }
            assert forall|key: Seq<char>|
                self.import_raw_fresh(key) == pre.import_raw_fresh(key) by {
                assert(self.impraw_memo(key) == pre.impraw_memo(key));
            }
        }
        (tree, processed.unconfigured)
    }

    /// The tree of the full parse alone: the first element of
    /// [`Self::parse_with_unconfigured`], a narrower-shape convenience, not
    /// a distinct computation.
    pub fn parse(&mut self, file_id: FileId) -> (r: Parse)
        requires
            old(self).wf(),
            old(self).has_file(file_id),
        ensures
            final(self).wf(),
            r@ == parsed_text_spec(
                old(self).file_text_spec(file_id),
                old(self).defines_spec(),
                old(self).imports_spec(),
            ),
            forall|g: FileId| final(self).file_entry(g) == old(self).file_entry(g),
            final(self).defines_spec() == old(self).defines_spec(),
            final(self).imports_spec() == old(self).imports_spec(),
            final(self).can_set_imports() == old(self).can_set_imports(),
            final(self).can_set_defines() == old(self).can_set_defines(),
            final(self).parse_full_fresh(file_id),
            forall|g: FileId|
                g != file_id ==> final(self).parse_full_fresh(g) == old(self).parse_full_fresh(g),
            forall|g: FileId| final(self).line_index_fresh(g) == old(self).line_index_fresh(g),
            forall|g: FileId| final(self).parse_raw_fresh(g) == old(self).parse_raw_fresh(g),
            forall|key: Seq<char>| final(self).import_fresh(key) == old(self).import_fresh(key),
            forall|key: Seq<char>|
                final(self).import_raw_fresh(key) == old(self).import_raw_fresh(key),
            old(self).parse_full_fresh(file_id) ==> final(self).recomputations_spec() == old(
                self,
            ).recomputations_spec(),
    {
        let (tree, _unconfigured) = self.parse_with_unconfigured(file_id);
        tree
    }

    /// Parse a raw import-table entry, bypassing preprocessing. `Err(())` —
    /// the NotFound case — exactly when `key` is absent from the table;
    /// memoized against the table's version.
    pub fn parse_import_no_preprocessor(&mut self, key: String) -> (r: Result<Parse, ()>)
        requires
            old(self).wf(),
        ensures
            final(self).wf(),
            match r {
                Ok(p) => old(self).imports_spec().contains_key(key@) && p@ == old(
                    self,
                ).imports_spec()[key@],
                Err(_) => !old(self).imports_spec().contains_key(key@),
            },
            forall|g: FileId| final(self).file_entry(g) == old(self).file_entry(g),
            final(self).defines_spec() == old(self).defines_spec(),
            final(self).imports_spec() == old(self).imports_spec(),
            final(self).can_set_imports() == old(self).can_set_imports(),
            final(self).can_set_defines() == old(self).can_set_defines(),
            final(self).import_raw_fresh(key@),
            forall|k2: Seq<char>|
                k2 != key@ ==> final(self).import_raw_fresh(k2) == old(self).import_raw_fresh(k2),
            forall|g: FileId| final(self).line_index_fresh(g) == old(self).line_index_fresh(g),
            forall|g: FileId| final(self).parse_raw_fresh(g) == old(self).parse_raw_fresh(g),
            forall|g: FileId| final(self).parse_full_fresh(g) == old(self).parse_full_fresh(g),
            forall|k2: Seq<char>| final(self).import_fresh(k2) == old(self).import_fresh(k2),
            old(self).import_raw_fresh(key@) ==> final(self).recomputations_spec() == old(
                self,
            ).recomputations_spec(),
    {
        match find_by_key(&self.memo_import_raw, key.as_str()) {
            Some(m) => {
                if self.memo_import_raw[m].1.imports_version == self.imports_version {
                    let r: Result<Parse, ()> = match &self.memo_import_raw[m].1.value {
                        Some(p) => Ok(p.clone()),
                        None => Err(()),
                    };
                    proof {
                        let entry = self.memo_import_raw@[m as int].1;
                        assert(self.impraw_memo(key@) == Some(
                            (
                                entry.imports_version,
                                match entry.value {
                                    Some(p) => Some(p@),
                                    None => None,
                                },
                            ),
                        ));
                    }
                    return r;
                }
            },
            None => {},
        }
        let computed: Option<Parse> = match self.imports.get(key.as_str()) {
            Some(src) => Some(parse(src.as_str())),
            None => None,
        };
        let stored: Option<Parse> = match &computed {
            Some(p) => Some(p.clone()),
            None => None,
        };
        let imports_version = self.imports_version;
        self.memo_import_raw.insert(0, (key, ImportRawMemo { imports_version, value: stored }));
        self.note_recompute();
        proof {
            let pre = *old(self);
            let e = self.memo_import_raw@[0];
            assert(self.memo_import_raw@ =~= seq![e] + pre.memo_import_raw@);
            assert(str_entries(self.memo_import_raw@) =~= seq![(e.0@, e.1)] + str_entries(
                pre.memo_import_raw@,
            ));
            lemma_first_match_prepend(str_entries(pre.memo_import_raw@), (e.0@, e.1));
            assert(self.impraw_memo(key@) == Some(
                (
                    imports_version,
                    match computed {
                        Some(p) => Some(p@),
                        None => None,
                    },
                ),
            ));
            assert forall|k2: Seq<char>| k2 != key@ implies self.impraw_memo(k2)
                == pre.impraw_memo(k2) by {
                assert(first_match(str_entries(self.memo_import_raw@), k2) == first_match(
                    str_entries(pre.memo_import_raw@),
                    k2,
                ));
            }
            assert forall|k2: Seq<char>| (#[trigger] self.impraw_memo(k2)) is Some implies {
                let m2 = self.impraw_memo(k2).unwrap();
                &&& m2.0 <= self.imports_version
                &&& (m2.0 == self.imports_version ==> m2.1 == self.parse_import_raw_spec(k2))
            } by {
                if k2 != key@ {
                    assert(self.impraw_memo(k2) == pre.impraw_memo(k2));
                }
                assert(self.parse_import_raw_spec(k2) == pre.parse_import_raw_spec(k2));
            }
            Self::lemma_li_wf_same(pre, *self);
            Self::lemma_praw_wf_same(pre, *self);
            Self::lemma_pfull_wf_same(pre, *self);
            Self::lemma_imp_wf_same(pre, *self);
            assert forall|k2: Seq<char>| k2 != key@ implies self.import_raw_fresh(k2)
                == pre.import_raw_fresh(k2) by {
                assert(self.impraw_memo(k2) == pre.impraw_memo(k2));
            }
            assert forall|g: FileId| self.line_index_fresh(g) == pre.line_index_fresh(g) by {
                assert(self.li_memo(g) == pre.li_memo(g));
                assert(self.file_entry(g) == pre.file_entry(g));
            }
            assert forall|g: FileId| self.parse_raw_fresh(g) == pre.parse_raw_fresh(g) by {
                assert(self.praw_memo(g) == pre.praw_memo(g));
                assert(self.file_entry(g) == pre.file_entry(g));
            }
            assert forall|g: FileId| self.parse_full_fresh(g) == pre.parse_full_fresh(g) by {
                assert(self.pfull_memo(g) == pre.pfull_memo(g));
                assert(self.file_entry(g) == pre.file_entry(g));
            }
            assert forall|k2: Seq<char>| self.import_fresh(k2) == pre.import_fresh(k2) by {
                assert(self.imp_memo(k2) == pre.imp_memo(k2));
            }
        }
        match computed {
            Some(p) => Ok(p),
            None => Err(()),
        }
    }

    /// Parse an import-table entry after preprocessing only — imports are
    /// not transitively expanded. `Err(())` — the NotFound case — exactly
    /// when `key` is absent from the table; memoized against the table's and
    /// the define set's versions.
    pub fn parse_import(&mut self, key: String) -> (r: Result<Parse, ()>)
        requires
            old(self).wf(),
        ensures
            final(self).wf(),
            match r {
                Ok(p) => old(self).imports_spec().contains_key(key@) && p@ == process_spec(
                    old(self).imports_spec()[key@],
                    old(self).defines_spec(),
                ).processed,
                Err(_) => !old(self).imports_spec().contains_key(key@),
            },
            forall|g: FileId| final(self).file_entry(g) == old(self).file_entry(g),
            final(self).defines_spec() == old(self).defines_spec(),
            final(self).imports_spec() == old(self).imports_spec(),
            final(self).can_set_imports() == old(self).can_set_imports(),
            final(self).can_set_defines() == old(self).can_set_defines(),
            final(self).import_fresh(key@),
            forall|k2: Seq<char>|
                k2 != key@ ==> final(self).import_fresh(k2) == old(self).import_fresh(k2),
            forall|g: FileId| final(self).line_index_fresh(g) == old(self).line_index_fresh(g),
            forall|g: FileId| final(self).parse_raw_fresh(g) == old(self).parse_raw_fresh(g),
            forall|g: FileId| final(self).parse_full_fresh(g) == old(self).parse_full_fresh(g),
            forall|k2: Seq<char>|
                final(self).import_raw_fresh(k2) == old(self).import_raw_fresh(k2),
            old(self).import_fresh(key@) ==> final(self).recomputations_spec() == old(
                self,
            ).recomputations_spec(),
    {
        match find_by_key(&self.memo_import, key.as_str()) {
            Some(m) => {
                let hit = self.memo_import[m].1.imports_version == self.imports_version
                    && self.memo_import[m].1.defines_version == self.defines_version;
                if hit {
                    let r: Result<Parse, ()> = match &self.memo_import[m].1.value {
                        Some(p) => Ok(p.clone()),
                        None => Err(()),
                    };
                    proof {
                        let entry = self.memo_import@[m as int].1;
                        assert(self.imp_memo(key@) == Some(
                            (
                                entry.imports_version,
                                entry.defines_version,
                                match entry.value {
                                    Some(p) => Some(p@),
                                    None => None,
                                },
                            ),
                        ));
                    }
                    return r;
                }
            },
            None => {},
        }
        let computed: Option<Parse> = match self.imports.get(key.as_str()) {
            Some(src) => {
                let processed = process(src.as_str(), &self.defines);
                Some(parse(processed.text.as_str()))
            },
            None => None,
        };
        let stored: Option<Parse> = match &computed {
            Some(p) => Some(p.clone()),
            None => None,
        };
        let imports_version = self.imports_version;
        let defines_version = self.defines_version;
        self.memo_import.insert(
            0,
            (key, ImportMemo { imports_version, defines_version, value: stored }),
        );
        self.note_recompute();
        proof {
            let pre = *old(self);
            let e = self.memo_import@[0];
            assert(self.memo_import@ =~= seq![e] + pre.memo_import@);
            assert(str_entries(self.memo_import@) =~= seq![(e.0@, e.1)] + str_entries(
                pre.memo_import@,
            ));
            lemma_first_match_prepend(str_entries(pre.memo_import@), (e.0@, e.1));
            assert(self.imp_memo(key@) == Some(
                (
                    imports_version,
                    defines_version,
                    match computed {
                        Some(p) => Some(p@),
                        None => None,
                    },
                ),
            ));
            assert forall|k2: Seq<char>| k2 != key@ implies self.imp_memo(k2) == pre.imp_memo(
                k2,
            ) by {
                assert(first_match(str_entries(self.memo_import@), k2) == first_match(
                    str_entries(pre.memo_import@),
                    k2,
                ));
            }
            assert forall|k2: Seq<char>| (#[trigger] self.imp_memo(k2)) is Some implies {
                let m2 = self.imp_memo(k2).unwrap();
                &&& m2.0 <= self.imports_version
                &&& m2.1 <= self.defines_version
                &&& ((m2.0 == self.imports_version && m2.1 == self.defines_version) ==> m2.2
                    == self.parse_import_spec(k2))
            } by {
                if k2 != key@ {
                    assert(self.imp_memo(k2) == pre.imp_memo(k2));
                }
                assert(self.parse_import_spec(k2) == pre.parse_import_spec(k2));
            }
            Self::lemma_li_wf_same(pre, *self);
            Self::lemma_praw_wf_same(pre, *self);
            Self::lemma_pfull_wf_same(pre, *self);
            Self::lemma_impraw_wf_same(pre, *self);
            assert forall|k2: Seq<char>| k2 != key@ implies self.import_fresh(k2)
                == pre.import_fresh(k2) by {
                assert(self.imp_memo(k2) == pre.imp_memo(k2));
            }
            assert forall|g: FileId| self.line_index_fresh(g) == pre.line_index_fresh(g) by {
                assert(self.li_memo(g) == pre.li_memo(g));
                assert(self.file_entry(g) == pre.file_entry(g));
            }
            assert forall|g: FileId| self.parse_raw_fresh(g) == pre.parse_raw_fresh(g) by {
                assert(self.praw_memo(g) == pre.praw_memo(g));
                assert(self.file_entry(g) == pre.file_entry(g));
            }
            assert forall|g: FileId| self.parse_full_fresh(g) == pre.parse_full_fresh(g) by {
                assert(self.pfull_memo(g) == pre.pfull_memo(g));
                assert(self.file_entry(g) == pre.file_entry(g));
            }
            assert forall|k2: Seq<char>|
                self.import_raw_fresh(k2) == pre.import_raw_fresh(k2) by {
                assert(self.impraw_memo(k2) == pre.impraw_memo(k2));
            }
        }
        match computed {
            Some(p) => Ok(p),
            None => Err(()),
        }
    }
}

} // verus!
