//! Candidate discovery: a text prefilter over the project's files, lazy syntactic
//! indexing of the files that match, and the in-memory index of candidate symbols
//! and call sites that traversal queries.
use vstd::prelude::*;
use crate::compile_db::{CompilationDb, ctx_at, valid_pos};
use crate::keys::enc_opt_str;
use crate::model::{CandidateCallId, CandidateCallSite, CandidateSymbol, CandidateSymbolId, CompilationContext, CompilationKey, Language, Symbol, SymbolQuery, clone_opt_string};
use crate::order::{append_to_entry, entry_list, enc_str, enc_path, list_at, lemma_pos_of, path_key, push_enc_str, OrdMap};
use crate::project::ProjectContext;
use crate::text::{chars_of, rfind, string_of_range, last_occurrence};

verus! {

broadcast use vstd::string::group_string_axioms;

/// A lookup key: terminal name and optional qualifier prefix.
#[derive(Debug, Clone, PartialEq, Eq)]
pub struct NameKey {
    /// Terminal name
    pub terminal_name: String,
    /// Qualifier prefix (`ns::Class::`)
    pub qualifier: Option<String>,
}

/// The characters of an optional string.
pub open spec fn opt_view(o: Option<String>) -> Option<Seq<char>> {
    match o {
        Some(s) => Some(s@),
        None => None,
    }
}

/// The code of an optional string: a marker, then the string's key.
pub open spec fn enc_opt_chars(q: Option<Seq<char>>) -> Seq<u32> {
    match q {
        Some(x) => seq![1u32] + enc_str(x),
        None => seq![0u32],
    }
}

/// The ordering key of a name key: terminal name, then qualifier.
pub open spec fn name_code(name: Seq<char>, qualifier: Option<Seq<char>>) -> Seq<u32> {
    enc_str(name) + enc_opt_chars(qualifier)
}

/// The ordering key of a name key.
pub fn name_key_code(name: &str, qualifier: &Option<String>) -> (r: Vec<u32>)
    ensures
        r@ == name_code(name@, opt_view(*qualifier)),
{
    let mut out: Vec<u32> = Vec::new();
    push_enc_str(&mut out, name);
    match qualifier {
        Some(q) => {
            let ghost mid = out@;
            out.push(1);
            push_enc_str(&mut out, q.as_str());
            assert(out@ =~= mid + (seq![1u32] + enc_str(q@)));
        },
        None => {
            out.push(0);
        },
    }
    assert(out@ =~= name_code(name@, opt_view(*qualifier)));
    out
}

/// A project file as the walk found it: its normalized path and its bytes
/// (`None` when it could not be read).
#[derive(Debug, Clone)]
pub struct SourceFile {
    /// Normalized path
    pub path: String,
    /// Contents, when readable
    pub contents: Option<Vec<u8>>,
}

/// The in-memory candidate index. Candidate symbols and calls get consecutive
/// identifiers from 1, so each is stored at the position its identifier gives.
#[derive(Debug)]
pub struct DiscoveryIndex {
    /// Files parsed so far, in path order
    pub source_files: Vec<String>,
    /// Files inspected by the text prefilter (repeated searches counted again)
    pub source_files_inspected: usize,
    /// Time spent in discovery, in nanoseconds
    pub discovery_time: u64,
    /// Candidate symbols per name key
    pub symbols_by_name: OrdMap<(NameKey, Vec<CandidateSymbolId>)>,
    /// Candidate symbols; the one with identifier `n` at position `n - 1`
    pub symbols: Vec<CandidateSymbol>,
    /// Candidate calls per callee spelling (reverse traversal)
    pub calls_by_spelling: OrdMap<(NameKey, Vec<CandidateCallId>)>,
    /// Candidate calls within each symbol, by the symbol's position (forward traversal)
    pub calls_by_caller: Vec<Vec<CandidateCallId>>,
    /// Candidate calls; the one with identifier `n` at position `n - 1`
    pub calls: Vec<CandidateCallSite>,
    /// Headers each file includes
    pub file_includes: OrdMap<(String, OrdMap<String>)>,
    /// Files that include each header
    pub include_parents: OrdMap<(String, OrdMap<String>)>,
    /// Compilable contexts met by each name search
    pub search_contexts_by_name: OrdMap<(String, Vec<CompilationKey>)>,
    /// Compilable contexts grouped with each file by a name search
    pub search_contexts_by_file: OrdMap<(String, Vec<CompilationKey>)>,
    /// The project's C/C++ files, once known
    pub candidate_files: Option<Vec<SourceFile>>,
    /// Terminal names already searched
    pub searched_names: OrdMap<String>,
}

/// Whether `id` names one of `n` stored entries.
pub open spec fn valid_id(id: u32, n: nat) -> bool {
    1 <= id <= n
}

impl DiscoveryIndex {
    /// Symbols and calls sit at the positions their identifiers give, every call's
    /// enclosing symbol is stored, and each lookup list holds stored entries whose
    /// names match its key.
    pub open spec fn wf(&self) -> bool {
        &&& self.symbols_by_name.wf()
        &&& self.calls_by_spelling.wf()
        &&& self.file_includes.wf()
        &&& self.include_parents.wf()
        &&& self.search_contexts_by_name.wf()
        &&& self.search_contexts_by_file.wf()
        &&& self.searched_names.wf()
        &&& forall|i: int| 0 <= i < self.file_includes.size() ==> (#[trigger] self.file_includes.vals@[i]).1.wf()
        &&& forall|i: int| 0 <= i < self.include_parents.size() ==> (#[trigger] self.include_parents.vals@[i]).1.wf()
        &&& self.symbols@.len() < u32::MAX
        &&& self.calls@.len() < u32::MAX
        &&& self.calls_by_caller@.len() == self.symbols@.len()
        &&& forall|k: int| 0 <= k < self.symbols@.len() ==> (#[trigger] self.symbols@[k]).id.0 == k + 1
        &&& forall|k: int| 0 <= k < self.calls@.len() ==> (#[trigger] self.calls@[k]).id.0 == k + 1
            && valid_id(self.calls@[k].caller.0, self.symbols@.len())
        &&& forall|k: int, j: int| 0 <= k < self.calls_by_caller@.len() && 0 <= j < self.calls_by_caller@[k]@.len() ==>
            self.call_within(#[trigger] self.calls_by_caller@[k]@[j], CandidateSymbolId((k + 1) as u32))
        &&& forall|i: int| 0 <= i < self.symbols_by_name.size() ==>
            self.symbol_entry_ok(#[trigger] self.symbols_by_name.vals@[i], self.symbols_by_name.key_view()[i])
        &&& forall|i: int| 0 <= i < self.calls_by_spelling.size() ==>
            self.call_entry_ok(#[trigger] self.calls_by_spelling.vals@[i], self.calls_by_spelling.key_view()[i])
    }

    /// A name entry is stored under its name's key and lists symbols of that name.
    pub open spec fn symbol_entry_ok(&self, e: (NameKey, Vec<CandidateSymbolId>), key: Seq<u32>) -> bool {
        &&& key == name_code(e.0.terminal_name@, opt_view(e.0.qualifier))
        &&& forall|j: int| 0 <= j < e.1@.len() ==> self.symbol_named(#[trigger] e.1@[j], e.0.terminal_name@)
    }

    /// A spelling entry is stored under its key and lists calls spelled that way.
    pub open spec fn call_entry_ok(&self, e: (NameKey, Vec<CandidateCallId>), key: Seq<u32>) -> bool {
        &&& key == name_code(e.0.terminal_name@, opt_view(e.0.qualifier))
        &&& forall|j: int| 0 <= j < e.1@.len() ==> self.call_spelled(#[trigger] e.1@[j], e.0.terminal_name@, opt_view(e.0.qualifier))
    }

    /// The stored symbol with this identifier has this name.
    pub open spec fn symbol_named(&self, id: CandidateSymbolId, name: Seq<char>) -> bool {
        valid_id(id.0, self.symbols@.len()) && self.symbols@[id.0 - 1].name@ == name
    }

    /// The stored call with this identifier has this callee spelling and qualifier.
    pub open spec fn call_spelled(&self, id: CandidateCallId, name: Seq<char>, qualifier: Option<Seq<char>>) -> bool {
        valid_id(id.0, self.calls@.len()) && self.calls@[id.0 - 1].callee_spelling@ == name
            && opt_view(self.calls@[id.0 - 1].qualifier_hint) == qualifier
    }

    /// The stored call with this identifier lies within this symbol.
    pub open spec fn call_within(&self, id: CandidateCallId, caller: CandidateSymbolId) -> bool {
        valid_id(id.0, self.calls@.len()) && self.calls@[id.0 - 1].caller == caller
    }

    /// The calls within the symbol with this identifier.
    pub open spec fn callees_of(&self, id: CandidateSymbolId) -> Seq<CandidateCallId> {
        if valid_id(id.0, self.symbols@.len()) { self.calls_by_caller@[id.0 - 1]@ } else { Seq::empty() }
    }

    /// An empty index.
    pub fn new() -> (r: Self)
        ensures
            r.wf(),
            r.symbols@.len() == 0,
            r.calls@.len() == 0,
            r.source_files@.len() == 0,
            r.candidate_files is None,
    {
        DiscoveryIndex {
            source_files: Vec::new(),
            source_files_inspected: 0,
            discovery_time: 0,
            symbols_by_name: OrdMap::new(),
            symbols: Vec::new(),
            calls_by_spelling: OrdMap::new(),
            calls_by_caller: Vec::new(),
            calls: Vec::new(),
            file_includes: OrdMap::new(),
            include_parents: OrdMap::new(),
            search_contexts_by_name: OrdMap::new(),
            search_contexts_by_file: OrdMap::new(),
            candidate_files: None,
            searched_names: OrdMap::new(),
        }
    }

    /// An empty index over a known catalog of project files.
    pub fn with_catalog(files: Vec<SourceFile>) -> (r: Self)
        ensures
            r.wf(),
            r.symbols@.len() == 0,
            r.calls@.len() == 0,
            r.candidate_files == Some(files),
    {
        let mut r = DiscoveryIndex::new();
        r.candidate_files = Some(files);
        r
    }

    /// An index of every project file, parsed up front: the files are the
    /// catalog, each counts as inspected, and the time spent is recorded.
    pub fn build(project: &ProjectContext, files: Vec<SourceFile>) -> (r: Self)
        ensures
            r.wf(),
            r.source_files_inspected == files@.len(),
            r.candidate_files == Some(files),
            forall|j: int| 0 <= j < files@.len() ==> r.parsed(#[trigger] files@[j].path@),
    {
        let started = crate::clock::instant_now();
        let n = files.len();
        let mut picks: Vec<usize> = Vec::new();
        for i in 0..n
            invariant
                picks@.len() == i,
                forall|k: int| 0 <= k < i ==> #[trigger] picks@[k] == k,
        {
            picks.push(i);
        }
        let ghost pv = picks@;
        let mut index = DiscoveryIndex::new();
        index.index_files(project, files.as_slice(), picks);
        proof {
            assert forall|j: int| 0 <= j < files@.len() implies index.parsed(#[trigger] files@[j].path@) by {
                assert(pv[j] == j);
                assert(index.parsed(files@[pv[j] as int].path@));
            }
        }
        let ghost indexed = index;
        let ghost catalog = files@;
        index.candidate_files = Some(files);
        index.source_files_inspected = n;
        index.discovery_time = crate::clock::nanos_since(&started);
        proof {
            assert forall|j: int| 0 <= j < catalog.len() implies index.parsed(#[trigger] catalog[j].path@) by {
                assert(indexed.parsed(catalog[j].path@));
                let w = choose|w: int| 0 <= w < indexed.source_files@.len()
                    && enc_path(#[trigger] indexed.source_files@[w]@) == enc_path(catalog[j].path@);
                assert(index.source_files@[w] == indexed.source_files@[w]);
            }
        }
        index
    }

    /// The stored candidate symbol with this identifier.
    pub fn symbol(&self, id: CandidateSymbolId) -> (r: Option<&CandidateSymbol>)
        requires
            self.wf(),
        ensures
            r matches Some(s) ==> valid_id(id.0, self.symbols@.len()) && *s == self.symbols@[id.0 - 1] && s.id == id,
            r is None ==> !valid_id(id.0, self.symbols@.len()),
    {
        if id.0 >= 1 && (id.0 as usize) <= self.symbols.len() {
            let s = &self.symbols[(id.0 - 1) as usize];
            Some(s)
        } else {
            None
        }
    }

    /// The stored candidate call with this identifier.
    pub fn call(&self, id: CandidateCallId) -> (r: Option<&CandidateCallSite>)
        requires
            self.wf(),
        ensures
            r matches Some(c) ==> valid_id(id.0, self.calls@.len()) && *c == self.calls@[id.0 - 1] && c.id == id,
            r is None ==> !valid_id(id.0, self.calls@.len()),
    {
        if id.0 >= 1 && (id.0 as usize) <= self.calls.len() {
            let c = &self.calls[(id.0 - 1) as usize];
            Some(c)
        } else {
            None
        }
    }

    /// The candidate symbols of a query: those under its exact name key, else
    /// those under its terminal name alone.
    pub open spec fn matching_spec(&self, query: SymbolQuery) -> Seq<CandidateSymbolId> {
        if self.symbols_by_name.contains(name_code(query.terminal_name@, opt_view(query.qualifier_hint))) {
            list_at(self.symbols_by_name, name_code(query.terminal_name@, opt_view(query.qualifier_hint)))
        } else {
            list_at(self.symbols_by_name, name_code(query.terminal_name@, None))
        }
    }

    /// The candidate symbols of a query: those under its exact name key, else
    /// those under its terminal name alone, else none.
    pub fn matching_symbols(&self, query: &SymbolQuery) -> (r: &[CandidateSymbolId])
        requires
            self.symbols_by_name.wf(),
        ensures
            r@ == self.matching_spec(*query),
            self.wf() ==> forall|j: int| 0 <= j < r@.len() ==> valid_id((#[trigger] r@[j]).0, self.symbols@.len()),
    {
        proof {
            if self.wf() {
                self.lemma_listed_valid(name_code(query.terminal_name@, opt_view(query.qualifier_hint)));
                self.lemma_listed_valid(name_code(query.terminal_name@, None));
            }
        }
        let key = name_key_code(query.terminal_name.as_str(), &query.qualifier_hint);
        let exact = entry_list(&self.symbols_by_name, key.as_slice());
        if self.symbols_by_name.find(key.as_slice()).is_ok() {
            return exact;
        }
        let none: Option<String> = None;
        let relaxed = name_key_code(query.terminal_name.as_str(), &none);
        entry_list(&self.symbols_by_name, relaxed.as_slice())
    }

    proof fn lemma_listed_valid(&self, key: Seq<u32>)
        requires
            self.wf(),
        ensures
            forall|j: int| 0 <= j < list_at(self.symbols_by_name, key).len() ==>
                valid_id((#[trigger] list_at(self.symbols_by_name, key)[j]).0, self.symbols@.len()),
    {
        if self.symbols_by_name.contains(key) {
            let p = crate::order::pos_of(self.symbols_by_name, key);
            assert(self.symbol_entry_ok(self.symbols_by_name.vals@[p], self.symbols_by_name.key_view()[p]));
            let ids = self.symbols_by_name.vals@[p].1@;
            assert forall|j: int| 0 <= j < ids.len() implies valid_id((#[trigger] ids[j]).0, self.symbols@.len()) by {
                assert(self.symbol_named(ids[j], self.symbols_by_name.vals@[p].0.terminal_name@));
            }
        }
    }

    /// The candidate calls that may call `target` (see [`DiscoveryIndex::candidate_callers`]).
    pub open spec fn candidate_callers_spec(&self, target: Symbol) -> Seq<CandidateCallId> {
        match caller_qualifier(target) {
            Some(q) => added_missing(list_at(self.calls_by_spelling, name_code(target.name@, None)),
                list_at(self.calls_by_spelling, name_code(target.name@, Some(q)))),
            None => list_at(self.calls_by_spelling, name_code(target.name@, None)),
        }
    }

    /// The candidate calls that may call `target`: those spelled with its terminal
    /// name and no qualifier, then those spelled with its terminal name and the
    /// qualifier its qualified name gives (the part up to the last `::`), each once.
    pub fn candidate_callers(&self, target: &Symbol) -> (r: Vec<CandidateCallId>)
        requires
            self.wf(),
        ensures
            r@.take(list_at(self.calls_by_spelling, name_code(target.name@, None)).len() as int)
                == list_at(self.calls_by_spelling, name_code(target.name@, None)),
            forall|c: CandidateCallId| r@.contains(c) <==> (list_at(self.calls_by_spelling, name_code(target.name@, None)).contains(c)
                || (caller_qualifier(*target) is Some
                    && list_at(self.calls_by_spelling, name_code(target.name@, caller_qualifier(*target))).contains(c))),
                r@ == self.candidate_callers_spec(*target),
    {
        let none: Option<String> = None;
        let k0 = name_key_code(target.name.as_str(), &none);
        let first = entry_list(&self.calls_by_spelling, k0.as_slice());
        let ghost l0 = first@;
        let mut result: Vec<CandidateCallId> = Vec::new();
        let n0 = first.len();
        for i in 0..n0
            invariant
                n0 == l0.len(),
                first@ == l0,
                result@ == l0.take(i as int),
        {
            result.push(first[i]);
            assert(l0.take(i + 1) == l0.take(i as int).push(l0[i as int]));
        }
        assert(l0.take(n0 as int) == l0);
        match qualifier_of(&target.qualified_name) {
            None => {},
            Some(q) => {
                let sq = Some(q);
                let kq = name_key_code(target.name.as_str(), &sq);
                let second = entry_list(&self.calls_by_spelling, kq.as_slice());
                append_missing(&mut result, second);
            },
        }
        result
    }

    /// The files that include a header.
    pub open spec fn parents_of(&self, file: Seq<char>) -> Seq<String> {
        if self.include_parents.contains(enc_path(file)) {
            self.include_parents.vals@[crate::order::pos_of(self.include_parents, enc_path(file))].1.vals@
        } else {
            Seq::empty()
        }
    }

    /// The context keys usable for a file: its own; else those of the files that
    /// include it; else those a name search grouped with it.
    pub open spec fn file_keys(&self, db: CompilationDb, file: Seq<char>) -> Seq<Seq<char>> {
        let own = ctx_keys(db_contexts(db, file));
        let parents = parent_keys(db, self.parents_of(file));
        if own.len() > 0 {
            dedup_keys(own)
        } else if parents.len() > 0 {
            dedup_keys(parents)
        } else {
            key_views(list_at(self.search_contexts_by_file, enc_path(file)))
        }
    }

    /// The context keys in which a candidate call can be verified: those of its
    /// file; else those the name search of its enclosing symbol met; none for an
    /// unknown call.
    pub open spec fn call_context_keys(&self, db: CompilationDb, call_id: CandidateCallId) -> Seq<Seq<char>> {
        if !valid_id(call_id.0, self.calls@.len()) {
            Seq::empty()
        } else {
            let call = self.calls@[call_id.0 - 1];
            let fk = self.file_keys(db, call.expression.start.file@);
            if fk.len() > 0 {
                fk
            } else if valid_id(call.caller.0, self.symbols@.len()) {
                key_views(list_at(self.search_contexts_by_name, enc_str(self.symbols@[call.caller.0 - 1].name@)))
            } else {
                Seq::empty()
            }
        }
    }

    /// The compilation contexts usable for a source or header file: its own
    /// contexts; else those of the files that include it; else those a name
    /// search grouped with it. Each key once.
    pub fn contexts_for_file(&self, file: &str, project: &ProjectContext) -> (r: Vec<CompilationKey>)
        requires
            self.wf(),
            project.compilation_db.wf(),
        ensures
            ctx_keys(db_contexts(project.compilation_db, file@)).len() > 0 ==>
                key_views(r@) == dedup_keys(ctx_keys(db_contexts(project.compilation_db, file@))),
            ctx_keys(db_contexts(project.compilation_db, file@)).len() == 0
                && parent_keys(project.compilation_db, self.parents_of(file@)).len() > 0 ==>
                key_views(r@) == dedup_keys(parent_keys(project.compilation_db, self.parents_of(file@))),
            ctx_keys(db_contexts(project.compilation_db, file@)).len() == 0
                && parent_keys(project.compilation_db, self.parents_of(file@)).len() == 0 ==>
                r@ == list_at(self.search_contexts_by_file, enc_path(file@)),
            key_views(r@) == self.file_keys(project.compilation_db, file@),
    {
        let db = &project.compilation_db;
        let mut contexts: Vec<CompilationKey> = Vec::new();
        let own = db.contexts_for_source(file);
        assert(key_views(contexts@) =~= dedup_keys(Seq::empty()));
        push_context_keys(&mut contexts, own, Ghost(Seq::empty()));
        assert(Seq::<Seq<char>>::empty() + ctx_keys(own@) =~= ctx_keys(own@));
        proof { lemma_dedup_empty(ctx_keys(own@)); }
        if contexts.len() > 0 {
            return contexts;
        }
        let fk = path_key(file);
        match self.include_parents.find(fk.as_slice()) {
            Ok(p) => {
                proof { lemma_pos_of(self.include_parents, p as int); }
                let parents = &self.include_parents.value_at(p).1.vals;
                let ghost ps = parents@;
                assert(ps == self.parents_of(file@));
                let m = parents.len();
                let ghost mut acc: Seq<Seq<char>> = Seq::empty();
                assert(acc =~= parent_keys(*db, ps.take(0)));
                for i in 0..m
                    invariant
                        m == ps.len(),
                        parents@ == ps,
                        db.wf(),
                        acc == parent_keys(*db, ps.take(i as int)),
                        key_views(contexts@) == dedup_keys(acc),
                {
                    let pc = db.contexts_for_source(parents[i].as_str());
                    push_context_keys(&mut contexts, pc, Ghost(acc));
                    proof {
                        assert(ps.take(i + 1).drop_last() =~= ps.take(i as int));
                        acc = acc + ctx_keys(pc@);
                    }
                }
                assert(ps.take(m as int) =~= ps);
                proof { lemma_dedup_empty(acc); }
            },
            Err(_) => {
                assert(self.parents_of(file@) =~= Seq::<String>::empty());
                assert(parent_keys(*db, Seq::<String>::empty()) =~= Seq::<Seq<char>>::empty());
            },
        }
        if contexts.len() > 0 {
            return contexts;
        }
        let searched = entry_list(&self.search_contexts_by_file, fk.as_slice());
        let k = searched.len();
        let mut out: Vec<CompilationKey> = Vec::new();
        for i in 0..k
            invariant
                k == searched@.len(),
                out@ == searched@.take(i as int),
        {
            out.push(searched[i].clone());
            assert(searched@.take(i + 1) =~= searched@.take(i as int).push(searched@[i as int]));
        }
        assert(searched@.take(k as int) =~= searched@);
        out
    }

    /// The contexts a name search met for a terminal name.
    pub fn contexts_for_name(&self, name: &str) -> (r: Vec<CompilationKey>)
        requires
            self.wf(),
        ensures
            r@ == list_at(self.search_contexts_by_name, enc_str(name@)),
    {
        let k = crate::order::str_key(name);
        let l = entry_list(&self.search_contexts_by_name, k.as_slice());
        let n = l.len();
        let mut out: Vec<CompilationKey> = Vec::new();
        for i in 0..n
            invariant
                n == l@.len(),
                out@ == l@.take(i as int),
        {
            out.push(l[i].clone());
            assert(l@.take(i + 1) =~= l@.take(i as int).push(l@[i as int]));
        }
        assert(l@.take(n as int) =~= l@);
        out
    }

    /// The contexts in which a candidate call can be verified: those of its file;
    /// else those the name search of its enclosing symbol met.
    pub fn contexts_for(&self, call_id: CandidateCallId, project: &ProjectContext) -> (r: Vec<CompilationKey>)
        requires
            self.wf(),
            project.compilation_db.wf(),
        ensures
            key_views(r@) == self.call_context_keys(project.compilation_db, call_id),
    {
        match self.call(call_id) {
            None => Vec::new(),
            Some(call) => {
                let contexts = self.contexts_for_file(call.expression.start.file.as_str(), project);
                if contexts.len() > 0 {
                    return contexts;
                }
                match self.symbol(call.caller) {
                    Some(caller) => self.contexts_for_name(caller.name.as_str()),
                    None => Vec::new(),
                }
            },
        }
    }

    /// The contexts in which a candidate symbol can be resolved: those of its
    /// declaring file; else those the name search of its name met.
    pub fn contexts_for_symbol(&self, symbol_id: CandidateSymbolId, project: &ProjectContext) -> (r: Vec<CompilationKey>)
        requires
            self.wf(),
            project.compilation_db.wf(),
        ensures
            !valid_id(symbol_id.0, self.symbols@.len()) ==> r@.len() == 0,
            valid_id(symbol_id.0, self.symbols@.len()) ==> {
                let sym = self.symbols@[symbol_id.0 - 1];
                let fk = self.file_keys(project.compilation_db, sym.declaration.start.file@);
                key_views(r@) == if fk.len() > 0 { fk } else { key_views(list_at(self.search_contexts_by_name, enc_str(sym.name@))) }
            },
    {
        match self.symbol(symbol_id) {
            None => Vec::new(),
            Some(symbol) => {
                let contexts = self.contexts_for_file(symbol.declaration.start.file.as_str(), project);
                if contexts.len() > 0 {
                    return contexts;
                }
                self.contexts_for_name(symbol.name.as_str())
            },
        }
    }

    /// Discovers the candidates a symbol query needs: those of its terminal name.
    pub fn discover_query(&mut self, project: &ProjectContext, query: &SymbolQuery)
        requires
            old(self).wf(),
            project.compilation_db.wf(),
        ensures
            final(self).wf(),
            old(self).symbols@.len() <= final(self).symbols@.len(),
            crate::extract::grows(*old(self), *final(self)),
            forall|p: Seq<char>| #[trigger] old(self).parsed(p) ==> final(self).parsed(p),
            forall|p: Seq<char>| #[trigger] final(self).parsed(p) ==> old(self).parsed(p)
                || mentioned_path(catalog_of(*old(self)), crate::text::trim_spec(query.terminal_name@), enc_path(p)),
            crate::text::trim_spec(query.terminal_name@).len() == 0
                || old(self).searched_names.contains(enc_str(crate::text::trim_spec(query.terminal_name@)))
                ==> *final(self) == *old(self),
            crate::text::trim_spec(query.terminal_name@).len() > 0
                && !old(self).searched_names.contains(enc_str(crate::text::trim_spec(query.terminal_name@)))
                && old(self).candidate_files is Some ==> {
                let fs = old(self).candidate_files->0@;
                forall|j: int| 0 <= j < fs.len() && #[trigger] file_mentions(fs[j], crate::text::trim_spec(query.terminal_name@))
                    ==> final(self).parsed(fs[j].path@)
            },
            crate::text::trim_spec(query.terminal_name@).len() > 0
                && !old(self).searched_names.contains(enc_str(crate::text::trim_spec(query.terminal_name@))) ==>
                paths_sorted(final(self).source_files@)
                && final(self).source_files_inspected == sat_add(old(self).source_files_inspected, catalog_of(*old(self)).len()),
            crate::text::trim_spec(query.terminal_name@).len() > 0
                && !old(self).searched_names.contains(enc_str(crate::text::trim_spec(query.terminal_name@))) ==>
                exists|ds: Seq<DiscoveryIndex>, ks: Seq<crate::extract::BuildKeys>, fs: Seq<SourceFile>| {
                    &&& #[trigger] files_indexed(ds, ks, fs, project.source_root@, catalog_of(*old(self)))
                    &&& same_records(ds[0], *old(self))
                    &&& same_records(ds[fs.len() as int], *final(self))
                    &&& forall|t: int| 0 <= t < fs.len() ==>
                        #[trigger] mentioned_path(catalog_of(*old(self)), crate::text::trim_spec(query.terminal_name@), enc_path(fs[t].path@))
                    &&& forall|t: int, u: int| 0 <= t < u < fs.len() ==>
                        crate::order::lex_lt(#[trigger] enc_path(fs[t].path@), #[trigger] enc_path(fs[u].path@))
                    &&& forall|j: int| 0 <= j < catalog_of(*old(self)).len()
                        && #[trigger] file_mentions(catalog_of(*old(self))[j], crate::text::trim_spec(query.terminal_name@))
                        && !old(self).parsed(catalog_of(*old(self))[j].path@) ==>
                        exists|t: int| 0 <= t < fs.len() && enc_path(fs[t].path@) == enc_path(catalog_of(*old(self))[j].path@)
                },
    {
        self.discover_spelling(project, query.terminal_name.as_str());
    }

    /// The text prefilter and lazy parsing for one terminal name: every catalog
    /// file whose bytes hold the name (on identifier boundaries) is grouped with the
    /// compilation contexts of the matches, and the matching files not parsed yet
    /// are parsed and indexed. A name is searched once; a blank one never.
    pub fn discover_spelling(&mut self, project: &ProjectContext, spelling: &str)
        requires
            old(self).wf(),
            project.compilation_db.wf(),
        ensures
            final(self).wf(),
            old(self).symbols@.len() <= final(self).symbols@.len(),
            crate::extract::grows(*old(self), *final(self)),
            forall|p: Seq<char>| #[trigger] old(self).parsed(p) ==> final(self).parsed(p),
            forall|p: Seq<char>| #[trigger] final(self).parsed(p) ==> old(self).parsed(p)
                || mentioned_path(catalog_of(*old(self)), crate::text::trim_spec(spelling@), enc_path(p)),
            crate::text::trim_spec(spelling@).len() == 0
                || old(self).searched_names.contains(enc_str(crate::text::trim_spec(spelling@)))
                ==> *final(self) == *old(self),
            crate::text::trim_spec(spelling@).len() > 0 ==>
                final(self).searched_names.contains(enc_str(crate::text::trim_spec(spelling@))),
            crate::text::trim_spec(spelling@).len() > 0
                && !old(self).searched_names.contains(enc_str(crate::text::trim_spec(spelling@)))
                && old(self).candidate_files is Some ==> {
                let fs = old(self).candidate_files->0@;
                forall|j: int| 0 <= j < fs.len() && #[trigger] file_mentions(fs[j], crate::text::trim_spec(spelling@))
                    ==> final(self).parsed(fs[j].path@)
            },
            crate::text::trim_spec(spelling@).len() > 0
                && !old(self).searched_names.contains(enc_str(crate::text::trim_spec(spelling@))) ==>
                paths_sorted(final(self).source_files@)
                && final(self).source_files_inspected == sat_add(old(self).source_files_inspected, catalog_of(*old(self)).len()),
            crate::text::trim_spec(spelling@).len() > 0
                && !old(self).searched_names.contains(enc_str(crate::text::trim_spec(spelling@))) ==>
                exists|ds: Seq<DiscoveryIndex>, ks: Seq<crate::extract::BuildKeys>, fs: Seq<SourceFile>| {
                    &&& #[trigger] files_indexed(ds, ks, fs, project.source_root@, catalog_of(*old(self)))
                    &&& same_records(ds[0], *old(self))
                    &&& same_records(ds[fs.len() as int], *final(self))
                    &&& forall|t: int| 0 <= t < fs.len() ==>
                        #[trigger] mentioned_path(catalog_of(*old(self)), crate::text::trim_spec(spelling@), enc_path(fs[t].path@))
                    &&& forall|t: int, u: int| 0 <= t < u < fs.len() ==>
                        crate::order::lex_lt(#[trigger] enc_path(fs[t].path@), #[trigger] enc_path(fs[u].path@))
                    &&& forall|j: int| 0 <= j < catalog_of(*old(self)).len()
                        && #[trigger] file_mentions(catalog_of(*old(self))[j], crate::text::trim_spec(spelling@))
                        && !old(self).parsed(catalog_of(*old(self))[j].path@) ==>
                        exists|t: int| 0 <= t < fs.len() && enc_path(fs[t].path@) == enc_path(catalog_of(*old(self))[j].path@)
                },
    {
        let raw = chars_of(spelling);
        let trimmed = crate::text::trim_chars(&raw);
        let spelling = crate::text::string_of(&trimmed);
        if trimmed.len() == 0 {
            return;
        }
        let nk = crate::order::str_key(spelling.as_str());
        let ghost nkv = nk@;
        match self.searched_names.insert_if_absent(nk, spelling.clone()) {
            None => {
                return;
            },
            Some(at) => {
                proof {
                    assert(self.searched_names.key_view()[at as int] == nkv);
                }
            },
        }
        let ghost names_now = self.searched_names;
        let started = crate::clock::instant_now();
        let mut taken: Option<Vec<SourceFile>> = None;
        std::mem::swap(&mut taken, &mut self.candidate_files);
        let files: Vec<SourceFile> = match taken {
            Some(f) => f,
            None => Vec::new(),
        };
        let total = files.len();
        assert(files@ == catalog_of(*old(self)));
        let mut matches: Vec<usize> = Vec::new();
        for i in 0..total
            invariant
                total == files@.len(),
                forall|j: int| 0 <= j < matches@.len() ==> matches@[j] < total,
                forall|j: int| 0 <= j < i && #[trigger] file_mentions(files@[j], spelling@) ==> matches@.contains(j as usize),
                forall|k: int| 0 <= k < matches@.len() ==> file_mentions(files@[#[trigger] matches@[k] as int], spelling@),
        {
            let ghost before = matches@;
            match &files[i].contents {
                Some(c) => {
                    if crate::extract::file_contains_spelling(c.as_slice(), spelling.as_str()) {
                        matches.push(i);
                        proof {
                            assert(matches@[before.len() as int] == i);
                            assert(file_mentions(files@[i as int], spelling@));
                        }
                    }
                },
                None => {},
            }
            proof {
                assert forall|j: int| 0 <= j < i + 1 && #[trigger] file_mentions(files@[j], spelling@)
                    implies matches@.contains(j as usize) by {
                    if j < i {
                        let k = choose|k: int| 0 <= k < before.len() && before[k] == j as usize;
                        assert(matches@[k] == before[k]);
                    }
                }
            }
        }
        proof {
            assert(total == catalog_of(*old(self)).len());
        }
        self.source_files_inspected = self.source_files_inspected.saturating_add(total);
        let ghost insp = self.source_files_inspected;
        assert(insp == sat_add(old(self).source_files_inspected, catalog_of(*old(self)).len()));
        let db = &project.compilation_db;
        let mut context_keys: Vec<CompilationKey> = Vec::new();
        let nm = matches.len();
        for i in 0..nm
            invariant
                nm == matches@.len(),
                total == files@.len(),
                forall|j: int| 0 <= j < matches@.len() ==> matches@[j] < total,
                db.wf(),
        {
            let ctxs = db.contexts_for_source(files[matches[i]].path.as_str());
            let m = ctxs.len();
            for k in 0..m
                invariant
                    m == ctxs@.len(),
            {
                if !contains_key(&context_keys, &ctxs[k].key) {
                    context_keys.push(ctxs[k].key.clone());
                }
            }
        }
        let name_key = crate::order::str_key(spelling.as_str());
        let _ = self.search_contexts_by_name.insert(name_key, (spelling.clone(), clone_keys(&context_keys)));
        for i in 0..nm
            invariant
                nm == matches@.len(),
                total == files@.len(),
                forall|j: int| 0 <= j < matches@.len() ==> matches@[j] < total,
                self.wf(),
                old(self).symbols@.len() <= self.symbols@.len(),
                self.source_files == old(self).source_files,
                self.searched_names == names_now,
                self.symbols@ == old(self).symbols@,
                self.source_files_inspected == insp,
                same_records(*self, *old(self)),
                self.calls@ == old(self).calls@,
        {
            let path = &files[matches[i]].path;
            let fk = path_key(path.as_str());
            let pos = match self.search_contexts_by_file.find(fk.as_slice()) {
                Ok(p) => p,
                Err(_) => self.search_contexts_by_file.insert(fk, (path.clone(), Vec::new())),
            };
            let (t, mut list) = self.search_contexts_by_file.replace_at(pos, (String::new(), Vec::new()));
            let nk2 = context_keys.len();
            for k in 0..nk2
                invariant
                    nk2 == context_keys@.len(),
            {
                if !contains_key(&list, &context_keys[k]) {
                    list.push(context_keys[k].clone());
                }
            }
            let _ = self.search_contexts_by_file.replace_at(pos, (t, list));
            proof {
                assert(self.search_contexts_by_file.key_view() =~= self.search_contexts_by_file.key_view());
            }
        }
        let mut fresh: Vec<usize> = Vec::new();
        for i in 0..nm
            invariant
                nm == matches@.len(),
                total == files@.len(),
                forall|j: int| 0 <= j < matches@.len() ==> matches@[j] < total,
                forall|j: int| 0 <= j < fresh@.len() ==> fresh@[j] < total,
                self.source_files == old(self).source_files,
                self.symbols@ == old(self).symbols@,
                self.source_files_inspected == insp,
                same_records(*self, *old(self)),
                self.calls@ == old(self).calls@,
                forall|k: int| 0 <= k < i ==> old(self).parsed(files@[#[trigger] matches@[k] as int].path@)
                    || fresh@.contains(matches@[k]),
                forall|k: int| 0 <= k < matches@.len() ==> file_mentions(files@[#[trigger] matches@[k] as int], spelling@),
                forall|q: int| 0 <= q < fresh@.len() ==> file_mentions(files@[#[trigger] fresh@[q] as int], spelling@),
        {
            let ghost before = fresh@;
            if !self.is_parsed(files[matches[i]].path.as_str()) {
                fresh.push(matches[i]);
                proof {
                    assert(fresh@[before.len() as int] == matches@[i as int]);
                    assert forall|q: int| 0 <= q < fresh@.len() implies file_mentions(files@[#[trigger] fresh@[q] as int], spelling@) by {
                        if q < before.len() {
                            assert(fresh@[q] == before[q]);
                        }
                    }
                }
            }
            proof {
                assert forall|k: int| 0 <= k < i + 1 implies old(self).parsed(files@[#[trigger] matches@[k] as int].path@)
                    || fresh@.contains(matches@[k]) by {
                    if k < i && !old(self).parsed(files@[matches@[k] as int].path@) {
                        let q = choose|q: int| 0 <= q < before.len() && before[q] == matches@[k];
                        assert(fresh@[q] == before[q]);
                    }
                }
            }
        }
        let ghost mid = *self;
        let ghost fresh_v = fresh@;
        assert(same_records(mid, *old(self)));
        self.index_files(project, &files, fresh);
        let ghost indexed0 = *self;
        proof {
            assert forall|p: Seq<char>| #[trigger] old(self).parsed(p) implies self.parsed(p) by {
                assert(mid.parsed(p));
            }
            assert forall|p: Seq<char>| #[trigger] self.parsed(p) implies old(self).parsed(p)
                || mentioned_path(files@, spelling@, enc_path(p)) by {
                if !mid.parsed(p) {
                    assert(picked(files@, fresh_v, enc_path(p)));
                    let j = choose|j: int| 0 <= j < fresh_v.len() && fresh_v[j] < files@.len()
                        && enc_path(files@[#[trigger] fresh_v[j] as int].path@) == enc_path(p);
                    assert(file_mentions(files@[fresh_v[j] as int], spelling@));
                } else {
                    let w = choose|w: int| 0 <= w < mid.source_files@.len() && enc_path(#[trigger] mid.source_files@[w]@) == enc_path(p);
                    assert(old(self).source_files@[w] == mid.source_files@[w]);
                }
            }
            assert forall|j: int| 0 <= j < files@.len() && #[trigger] file_mentions(files@[j], spelling@)
                implies self.parsed(files@[j].path@) by {
                assert(matches@.contains(j as usize));
                let k = choose|k: int| 0 <= k < matches@.len() && matches@[k] == j as usize;
                if old(self).parsed(files@[matches@[k] as int].path@) {
                    assert(mid.parsed(files@[j].path@));
                } else {
                    assert(fresh_v.contains(matches@[k]));
                    let q = choose|q: int| 0 <= q < fresh_v.len() && fresh_v[q] == matches@[k];
                    assert(fresh_v[q] < files@.len());
                }
            }
        }
        let ghost indexed = *self;
        let ghost catalog = files@;
        self.candidate_files = Some(files);
        let spent = crate::clock::nanos_since(&started);
        self.discovery_time = self.discovery_time.saturating_add(spent);
        proof {
            let (ds, ks, fs) = choose|ds: Seq<DiscoveryIndex>, ks: Seq<crate::extract::BuildKeys>, fs: Seq<SourceFile>| {
                &&& #[trigger] files_indexed(ds, ks, fs, project.source_root@, catalog)
                &&& same_records(ds[0], mid)
                &&& same_records(ds[fs.len() as int], indexed0)
                &&& forall|t: int| 0 <= t < fs.len() ==> #[trigger] picked(catalog, fresh_v, enc_path(fs[t].path@))
                &&& forall|t: int, u: int| 0 <= t < u < fs.len() ==>
                    crate::order::lex_lt(#[trigger] enc_path(fs[t].path@), #[trigger] enc_path(fs[u].path@))
                &&& forall|j: int| 0 <= j < fresh_v.len() && fresh_v[j] < catalog.len()
                    && !mid.parsed(catalog[#[trigger] fresh_v[j] as int].path@) ==>
                    exists|t: int| 0 <= t < fs.len() && enc_path(fs[t].path@) == enc_path(catalog[fresh_v[j] as int].path@)
            };
            assert(same_records(ds[0], *old(self)));
            assert(same_records(ds[fs.len() as int], *self));
            assert forall|t: int| 0 <= t < fs.len() implies
                #[trigger] mentioned_path(catalog, spelling@, enc_path(fs[t].path@)) by {
                assert(picked(catalog, fresh_v, enc_path(fs[t].path@)));
                let j = choose|j: int| 0 <= j < fresh_v.len() && fresh_v[j] < catalog.len()
                    && enc_path(catalog[#[trigger] fresh_v[j] as int].path@) == enc_path(fs[t].path@);
                assert(file_mentions(catalog[fresh_v[j] as int], spelling@));
            }
            assert forall|j: int| 0 <= j < catalog.len() && #[trigger] file_mentions(catalog[j], spelling@)
                && !old(self).parsed(catalog[j].path@) implies
                exists|t: int| 0 <= t < fs.len() && enc_path(fs[t].path@) == enc_path(catalog[j].path@) by {
                assert(matches@.contains(j as usize));
                let k = choose|k: int| 0 <= k < matches@.len() && matches@[k] == j as usize;
                assert(fresh_v.contains(matches@[k]));
                let q = choose|q: int| 0 <= q < fresh_v.len() && fresh_v[q] == matches@[k];
                assert(!mid.parsed(catalog[fresh_v[q] as int].path@));
            }
        }
        proof {
            assert forall|p: Seq<char>| #[trigger] old(self).parsed(p) implies self.parsed(p) by {
                assert(indexed.parsed(p));
                let w = choose|w: int| 0 <= w < indexed.source_files@.len() && enc_path(#[trigger] indexed.source_files@[w]@) == enc_path(p);
                assert(self.source_files@[w] == indexed.source_files@[w]);
            }
            assert forall|p: Seq<char>| #[trigger] self.parsed(p) implies old(self).parsed(p)
                || mentioned_path(catalog, spelling@, enc_path(p)) by {
                let w = choose|w: int| 0 <= w < self.source_files@.len() && enc_path(#[trigger] self.source_files@[w]@) == enc_path(p);
                assert(indexed.source_files@[w] == self.source_files@[w]);
                assert(indexed.parsed(p));
            }
            assert forall|j: int| 0 <= j < catalog.len() && #[trigger] file_mentions(catalog[j], spelling@)
                implies self.parsed(catalog[j].path@) by {
                assert(indexed.parsed(catalog[j].path@));
                let w = choose|w: int| 0 <= w < indexed.source_files@.len()
                    && enc_path(#[trigger] indexed.source_files@[w]@) == enc_path(catalog[j].path@);
                assert(self.source_files@[w] == indexed.source_files@[w]);
            }
        }
    }

    /// Whether the file with this path (by path key) has been parsed.
    pub open spec fn parsed(&self, path: Seq<char>) -> bool {
        exists|j: int| 0 <= j < self.source_files@.len() && enc_path(#[trigger] self.source_files@[j]@) == enc_path(path)
    }

    /// Whether a file has been parsed already.
    pub fn is_parsed(&self, path: &str) -> (r: bool)
        ensures
            r == self.parsed(path@),
    {
        let k = path_key(path);
        let n = self.source_files.len();
        let mut i: usize = 0;
        while i < n
            invariant
                n == self.source_files@.len(),
                i <= n,
                k@ == enc_path(path@),
                forall|j: int| 0 <= j < i ==> enc_path(#[trigger] self.source_files@[j]@) != enc_path(path@),
            decreases n - i,
        {
            let pk = path_key(self.source_files[i].as_str());
            if crate::order::compare_codes(pk.as_slice(), k.as_slice()) == crate::order::KeyOrder::Equal {
                return true;
            }
            i = i + 1;
        }
        false
    }


    /// Parses and indexes catalog files not parsed yet, in path order, each once,
    /// and records them as parsed: afterwards every picked file is parsed, and
    /// every file parsed before still is.
    pub fn index_files(&mut self, project: &ProjectContext, files: &[SourceFile], picks: Vec<usize>)
        requires
            old(self).wf(),
        ensures
            final(self).wf(),
            old(self).symbols@.len() <= final(self).symbols@.len(),
            crate::extract::grows(*old(self), *final(self)),
            exists|ds: Seq<DiscoveryIndex>, ks: Seq<crate::extract::BuildKeys>, fs: Seq<SourceFile>| {
                &&& #[trigger] files_indexed(ds, ks, fs, project.source_root@, files@)
                &&& same_records(ds[0], *old(self))
                &&& same_records(ds[fs.len() as int], *final(self))
                &&& forall|t: int| 0 <= t < fs.len() ==> #[trigger] picked(files@, picks@, enc_path(fs[t].path@))
                &&& forall|t: int, u: int| 0 <= t < u < fs.len() ==>
                    crate::order::lex_lt(#[trigger] enc_path(fs[t].path@), #[trigger] enc_path(fs[u].path@))
                &&& forall|j: int| 0 <= j < picks@.len() && picks@[j] < files@.len()
                    && !old(self).parsed(files@[#[trigger] picks@[j] as int].path@) ==>
                    exists|t: int| 0 <= t < fs.len() && enc_path(fs[t].path@) == enc_path(files@[picks@[j] as int].path@)
            },
            forall|p: Seq<char>| #[trigger] old(self).parsed(p) ==> final(self).parsed(p),
            forall|j: int| 0 <= j < picks@.len() && picks@[j] < files@.len() ==>
                final(self).parsed(files@[#[trigger] picks@[j] as int].path@),
            forall|p: Seq<char>| #[trigger] final(self).parsed(p) ==> old(self).parsed(p) || picked(files@, picks@, enc_path(p)),
            final(self).candidate_files == old(self).candidate_files,
            paths_sorted(final(self).source_files@),
            final(self).source_files_inspected == old(self).source_files_inspected,
            final(self).searched_names == old(self).searched_names,
            final(self).discovery_time == old(self).discovery_time,
    {
        let ghost s0 = *self;
        let mut order: OrdMap<usize> = OrdMap::new();
        let np = picks.len();
        let mut i: usize = 0;
        while i < np
            invariant
                np == picks@.len(),
                i <= np,
                *self == s0,
                order.wf(),
                forall|t: int| 0 <= t < order.size() ==> (#[trigger] order.vals@[t]) < files@.len()
                    && order.key_view()[t] == enc_path(files@[order.vals@[t] as int].path@),
                forall|j: int| 0 <= j < i && picks@[j] < files@.len() ==>
                    s0.parsed(files@[#[trigger] picks@[j] as int].path@) || order.contains(enc_path(files@[picks@[j] as int].path@)),
                forall|t: int| 0 <= t < order.size() ==> #[trigger] picked(files@, picks@, order.key_view()[t]),
            decreases np - i,
        {
            let p = picks[i];
            if p < files.len() && !self.is_parsed(files[p].path.as_str()) {
                let ghost o0 = order;
                let key = path_key(files[p].path.as_str());
                let pos = order.insert(key, p);
                proof {
                    crate::order::lemma_insert_effect(o0, order, enc_path(files@[p as int].path@), p, pos as int);
                    assert forall|t: int| 0 <= t < order.size() implies (#[trigger] order.vals@[t]) < files@.len()
                        && order.key_view()[t] == enc_path(files@[order.vals@[t] as int].path@) by {
                        if o0.contains(enc_path(files@[p as int].path@)) {
                            if t != pos {
                                assert(order.vals@[t] == o0.vals@[t]);
                            }
                        } else if t < pos {
                            assert(order.vals@[t] == o0.vals@[t] && order.key_view()[t] == o0.key_view()[t]);
                        } else if t > pos {
                            assert(order.vals@[t] == o0.vals@[t - 1] && order.key_view()[t] == o0.key_view()[t - 1]);
                        }
                    }
                    assert forall|t: int| 0 <= t < order.size() implies #[trigger] picked(files@, picks@, order.key_view()[t]) by {
                        if o0.contains(enc_path(files@[p as int].path@)) {
                            if t != pos {
                                assert(order.key_view()[t] == o0.key_view()[t]);
                            } else {
                                assert(enc_path(files@[picks@[i as int] as int].path@) == order.key_view()[t]);
                                assert(picked(files@, picks@, order.key_view()[t]));
                            }
                        } else if t < pos {
                            assert(order.key_view()[t] == o0.key_view()[t]);
                        } else if t > pos {
                            assert(order.key_view()[t] == o0.key_view()[t - 1]);
                        } else {
                            assert(enc_path(files@[picks@[i as int] as int].path@) == order.key_view()[t]);
                            assert(picked(files@, picks@, order.key_view()[t]));
                        }
                    }
                    assert forall|j: int| 0 <= j < i + 1 && picks@[j] < files@.len() implies
                        s0.parsed(files@[#[trigger] picks@[j] as int].path@) || order.contains(enc_path(files@[picks@[j] as int].path@)) by {
                        if j < i {
                            if o0.contains(enc_path(files@[picks@[j] as int].path@)) {
                                let w = choose|w: int| 0 <= w < o0.key_view().len() && o0.key_view()[w] == enc_path(files@[picks@[j] as int].path@);
                                if o0.contains(enc_path(files@[p as int].path@)) {
                                    assert(order.key_view()[w] == o0.key_view()[w]);
                                } else if w < pos {
                                    assert(order.key_view()[w] == o0.key_view()[w]);
                                } else {
                                    assert(order.key_view()[w + 1] == o0.key_view()[w]);
                                }
                            }
                        } else {
                            assert(order.key_view()[pos as int] == enc_path(files@[p as int].path@));
                        }
                    }
                }
            }
            i = i + 1;
        }
        let mut previous: Vec<String> = Vec::new();
        std::mem::swap(&mut previous, &mut self.source_files);
        let saved_inspected = self.source_files_inspected;
        let saved_time = self.discovery_time;
        let mut saved_catalog: Option<Vec<SourceFile>> = None;
        std::mem::swap(&mut saved_catalog, &mut self.candidate_files);
        let mut saved_names: OrdMap<String> = OrdMap::new();
        std::mem::swap(&mut saved_names, &mut self.searched_names);
        let mut keys = crate::extract::BuildKeys::new();
        let n = order.len();
        let mut k: usize = 0;
        let ghost mut ds: Seq<DiscoveryIndex> = seq![*self];
        let ghost mut ks: Seq<crate::extract::BuildKeys> = seq![keys];
        let ghost mut fs: Seq<SourceFile> = Seq::empty();
        assert(same_records(ds[0], s0));
        while k < n
            invariant
                n == order.size(),
                k <= n,
                order.wf(),
                forall|u: int| 0 <= u < order.size() ==> (#[trigger] order.vals@[u]) < files@.len()
                    && order.key_view()[u] == enc_path(files@[order.vals@[u] as int].path@),
                crate::extract::builder_wf(*self, keys),
                s0.symbols@.len() <= self.symbols@.len(),
                crate::extract::grows(s0, *self),
                saved_names == s0.searched_names,
                saved_catalog == s0.candidate_files,
                files_indexed(ds, ks, fs, project.source_root@, files@),
                fs.len() == k,
                ds[k as int] == *self,
                ks[k as int] == keys,
                same_records(ds[0], s0),
                forall|t: int| 0 <= t < k ==> #[trigger] fs[t] == files@[order.vals@[t] as int],
            decreases n - k,
        {
            let p = *order.value_at(k);
            if p < files.len() {
                let ghost d0 = ds;
                let ghost k0 = ks;
                let ghost f0 = fs;
                self.index_file(project, &files[p], &mut keys, files);
                proof {
                    ds = d0.push(*self);
                    ks = k0.push(keys);
                    fs = f0.push(files@[p as int]);
                    assert forall|t: int| 0 <= t < fs.len() implies
                        #[trigger] file_indexed(ds[t], ks[t], ds[t + 1], ks[t + 1], fs[t], project.source_root@, files@) by {
                        if t < k {
                            assert(ds[t] == d0[t] && ds[t + 1] == d0[t + 1] && ks[t] == k0[t] && ks[t + 1] == k0[t + 1] && fs[t] == f0[t]);
                        }
                    }
                    assert forall|t: int| 0 <= t < k + 1 implies #[trigger] fs[t] == files@[order.vals@[t] as int] by {
                        if t < k {
                            assert(fs[t] == f0[t]);
                        }
                    }
                }
            }
            k = k + 1;
        }
        let ghost last = *self;
        let mut set: OrdMap<String> = OrdMap::new();
        let nprev = previous.len();
        let mut a: usize = 0;
        while a < nprev
            invariant
                nprev == previous@.len(),
                a <= nprev,
                crate::query::path_set_wf(set),
                forall|x: Seq<u32>| #[trigger] set.contains(x) <==> exists|j: int| 0 <= j < a && enc_path(#[trigger] previous@[j]@) == x,
            decreases nprev - a,
        {
            let ghost before = set;
            crate::query::add_path(&mut set, previous[a].as_str());
            proof {
                assert forall|x: Seq<u32>| #[trigger] set.contains(x) <==> exists|j: int| 0 <= j < a + 1 && enc_path(#[trigger] previous@[j]@) == x by {
                    if x == enc_path(previous@[a as int]@) {
                        assert(0 <= a < a + 1);
                    }
                    if exists|j: int| 0 <= j < a + 1 && enc_path(#[trigger] previous@[j]@) == x {
                        let j = choose|j: int| 0 <= j < a + 1 && enc_path(#[trigger] previous@[j]@) == x;
                        if j < a {
                            assert(before.contains(x));
                        }
                    }
                }
            }
            a = a + 1;
        }
        let mut t: usize = 0;
        while t < n
            invariant
                n == order.size(),
                t <= n,
                order.wf(),
                forall|u: int| 0 <= u < order.size() ==> (#[trigger] order.vals@[u]) < files@.len()
                    && order.key_view()[u] == enc_path(files@[order.vals@[u] as int].path@),
                crate::query::path_set_wf(set),
                forall|j: int| 0 <= j < nprev ==> set.contains(enc_path(#[trigger] previous@[j]@)),
                forall|u: int| 0 <= u < t ==> set.contains(#[trigger] order.key_view()[u]),
                nprev == previous@.len(),
                forall|x: Seq<u32>| #[trigger] set.contains(x) ==> (exists|j: int| 0 <= j < nprev && enc_path(#[trigger] previous@[j]@) == x)
                    || exists|u: int| 0 <= u < t && #[trigger] order.key_view()[u] == x,
            decreases n - t,
        {
            let p = *order.value_at(t);
            proof {
                assert(order.vals@[t as int] < files@.len());
            }
            let ghost before = set;
            crate::query::add_path(&mut set, files[p].path.as_str());
            proof {
                assert forall|x: Seq<u32>| #[trigger] set.contains(x) implies (exists|j: int| 0 <= j < nprev && enc_path(#[trigger] previous@[j]@) == x)
                    || exists|u: int| 0 <= u < t + 1 && #[trigger] order.key_view()[u] == x by {
                    if before.contains(x) {
                        if exists|u: int| 0 <= u < t && #[trigger] order.key_view()[u] == x {
                            let u = choose|u: int| 0 <= u < t && #[trigger] order.key_view()[u] == x;
                            assert(0 <= u < t + 1);
                        }
                    } else {
                        assert(order.key_view()[t as int] == x);
                    }
                }
            }
            t = t + 1;
        }
        self.source_files = set.vals;
        self.candidate_files = saved_catalog;
        self.searched_names = saved_names;
        self.source_files_inspected = saved_inspected;
        self.discovery_time = saved_time;
        proof {
            assert(same_records(ds[fs.len() as int], *self));
            assert forall|t: int| 0 <= t < fs.len() implies #[trigger] picked(files@, picks@, enc_path(fs[t].path@)) by {
                assert(fs[t] == files@[order.vals@[t] as int]);
                assert(picked(files@, picks@, order.key_view()[t]));
            }
            assert forall|t: int, u: int| 0 <= t < u < fs.len() implies
                crate::order::lex_lt(#[trigger] enc_path(fs[t].path@), #[trigger] enc_path(fs[u].path@)) by {
                assert(fs[t] == files@[order.vals@[t] as int]);
                assert(fs[u] == files@[order.vals@[u] as int]);
                assert(crate::order::lex_lt(order.key_view()[t], order.key_view()[u]));
            }
            assert forall|j: int| 0 <= j < picks@.len() && picks@[j] < files@.len()
                && !s0.parsed(files@[#[trigger] picks@[j] as int].path@) implies
                exists|t: int| 0 <= t < fs.len() && enc_path(fs[t].path@) == enc_path(files@[picks@[j] as int].path@) by {
                assert(order.contains(enc_path(files@[picks@[j] as int].path@)));
                let t = choose|t: int| 0 <= t < order.key_view().len() && order.key_view()[t] == enc_path(files@[picks@[j] as int].path@);
                assert(fs[t] == files@[order.vals@[t] as int]);
            }
            assert(files_indexed(ds, ks, fs, project.source_root@, files@));
        }
        proof {
            let sf = self.source_files@;
            assert forall|i: int, j: int| 0 <= i < j < sf.len() implies
                crate::order::lex_lt(#[trigger] enc_path(sf[i]@), #[trigger] enc_path(sf[j]@)) by {
                assert(set.key_view()[i] == enc_path(set.vals@[i]@));
                assert(set.key_view()[j] == enc_path(set.vals@[j]@));
            }
            assert forall|x: Seq<char>| #[trigger] self.parsed(x) implies s0.parsed(x) || picked(files@, picks@, enc_path(x)) by {
                let w = choose|w: int| 0 <= w < sf.len() && enc_path(#[trigger] sf[w]@) == enc_path(x);
                assert(set.key_view()[w] == enc_path(set.vals@[w]@));
                assert(set.contains(enc_path(x)));
                if exists|j: int| 0 <= j < nprev && enc_path(#[trigger] previous@[j]@) == enc_path(x) {
                    let j = choose|j: int| 0 <= j < nprev && enc_path(#[trigger] previous@[j]@) == enc_path(x);
                    assert(previous@[j] == s0.source_files@[j]);
                } else {
                    let u = choose|u: int| 0 <= u < n && #[trigger] order.key_view()[u] == enc_path(x);
                    assert(picked(files@, picks@, order.key_view()[u]));
                }
            }
            assert forall|x: Seq<char>| #[trigger] s0.parsed(x) implies self.parsed(x) by {
                let j = choose|j: int| 0 <= j < s0.source_files@.len() && enc_path(#[trigger] s0.source_files@[j]@) == enc_path(x);
                assert(previous@[j] == s0.source_files@[j]);
                assert(set.contains(enc_path(x)));
                let w = choose|w: int| 0 <= w < set.key_view().len() && set.key_view()[w] == enc_path(x);
                assert(enc_path(sf[w]@) == enc_path(x));
            }
            assert forall|j: int| 0 <= j < picks@.len() && picks@[j] < files@.len() implies
                self.parsed(files@[#[trigger] picks@[j] as int].path@) by {
                let fp = files@[picks@[j] as int].path@;
                if s0.parsed(fp) {
                } else {
                    assert(order.contains(enc_path(fp)));
                    let u = choose|u: int| 0 <= u < order.key_view().len() && order.key_view()[u] == enc_path(fp);
                    assert(set.contains(order.key_view()[u]));
                    let w = choose|w: int| 0 <= w < set.key_view().len() && set.key_view()[w] == enc_path(fp);
                    assert(enc_path(sf[w]@) == enc_path(fp));
                }
            }
        }
    }

    /// Parses one file and records its candidates.
    fn index_file(&mut self, project: &ProjectContext, file: &SourceFile, keys: &mut crate::extract::BuildKeys, catalog: &[SourceFile])
        requires
            crate::extract::builder_wf(*old(self), *old(keys)),
        ensures
            crate::extract::builder_wf(*final(self), *final(keys)),
            old(self).symbols@.len() <= final(self).symbols@.len(),
            crate::extract::grows(*old(self), *final(self)),
            file.contents is None ==> *final(self) == *old(self) && *final(keys) == *old(keys),
            file_indexed(*old(self), *old(keys), *final(self), *final(keys), *file, project.source_root@, catalog@),
    {
        let content = match &file.contents {
            Some(c) => c,
            None => return,
        };
        let language = crate::extract::detect_language(file.path.as_str());
        let root = match crate::syntax::parse_source(content.as_slice(), language) {
            Some(r) => r,
            None => return,
        };
        let ctx = crate::extract::FileCtx {
            file_path: file.path.clone(),
            source: content.as_slice(),
            language,
            source_root: project.source_root.clone(),
            catalog,
        };
        crate::extract::index_syntax_tree(&ctx, self, keys, &root);
        proof {
            assert(file_ctx_ok(ctx, *file, project.source_root@, catalog@));
        }
    }

    /// The candidate calls within a candidate symbol, in discovery order.
    pub fn candidate_callees(&self, source: CandidateSymbolId) -> (r: &[CandidateCallId])
        requires
            self.wf(),
        ensures
            r@ == self.callees_of(source),
            forall|j: int| 0 <= j < r@.len() ==> #[trigger] self.call_within(r@[j], source),
    {
        if source.0 >= 1 && (source.0 as usize) <= self.calls_by_caller.len() {
            let l = self.calls_by_caller[(source.0 - 1) as usize].as_slice();
            proof {
                assert forall|j: int| 0 <= j < l@.len() implies #[trigger] self.call_within(l@[j], source) by {
                    assert(self.call_within(self.calls_by_caller@[source.0 - 1]@[j], CandidateSymbolId(((source.0 - 1) + 1) as u32)));
                }
            }
            l
        } else {
            let e: &[CandidateCallId] = &[];
            assert(e@.len() == 0);
            e
        }
    }
}

/// The catalog an index holds, or none.
/// The records extraction writes are the same in `a` and `b`: the candidate
/// symbols and calls, their name and caller indexes, and the include graph.
pub open spec fn same_records(a: DiscoveryIndex, b: DiscoveryIndex) -> bool {
    &&& a.symbols_by_name == b.symbols_by_name
    &&& a.symbols@ == b.symbols@
    &&& a.calls_by_spelling == b.calls_by_spelling
    &&& a.calls_by_caller@ == b.calls_by_caller@
    &&& a.calls@ == b.calls@
    &&& a.file_includes == b.file_includes
    &&& a.include_parents == b.include_parents
}

/// What indexing one file does, from index `a` and keys `ka` to `b` and `kb`:
/// nothing for a file without contents or whose grammar cannot be loaded; else
/// the walk of the tree [`crate::syntax::syntax_tree`] names for its bytes.
pub open spec fn file_indexed(a: DiscoveryIndex, ka: crate::extract::BuildKeys, b: DiscoveryIndex,
    kb: crate::extract::BuildKeys, file: SourceFile, source_root: Seq<char>, catalog: Seq<SourceFile>) -> bool {
    match file.contents {
        None => b == a && kb == ka,
        Some(c) => match crate::syntax::syntax_tree(c@, crate::extract::language_of(file.path@)) {
            None => b == a && kb == ka,
            Some(root) => root.field is None && exists|ctx: crate::extract::FileCtx|
                file_ctx_ok(ctx, file, source_root, catalog)
                && #[trigger] crate::extract::root_walked(ctx, root, a, ka, b, kb),
        },
    }
}

/// The files `fs` were indexed one after the other, from index `ds[0]` to the
/// last of `ds` (with build keys `ks`).
pub open spec fn files_indexed(ds: Seq<DiscoveryIndex>, ks: Seq<crate::extract::BuildKeys>, fs: Seq<SourceFile>,
    source_root: Seq<char>, catalog: Seq<SourceFile>) -> bool {
    &&& ds.len() == fs.len() + 1
    &&& ks.len() == ds.len()
    &&& forall|t: int| 0 <= t < fs.len() ==> #[trigger] file_indexed(ds[t], ks[t], ds[t + 1], ks[t + 1], fs[t], source_root, catalog)
}

/// Paths in strictly increasing order of their keys, so each at most once.
pub open spec fn paths_sorted(ps: Seq<String>) -> bool {
    forall|i: int, j: int| 0 <= i < j < ps.len() ==> crate::order::lex_lt(#[trigger] enc_path(ps[i]@), #[trigger] enc_path(ps[j]@))
}

/// `a + b`, saturated at `usize::MAX`.
pub open spec fn sat_add(a: usize, b: nat) -> usize {
    if a + b > usize::MAX { usize::MAX } else { (a + b) as usize }
}

pub open spec fn catalog_of(idx: DiscoveryIndex) -> Seq<SourceFile> {
    match idx.candidate_files {
        Some(v) => v@,
        None => Seq::empty(),
    }
}

/// Some catalog file whose bytes hold `name` has this path key.
pub open spec fn mentioned_path(files: Seq<SourceFile>, name: Seq<char>, k: Seq<u32>) -> bool {
    exists|j: int| 0 <= j < files.len() && file_mentions(#[trigger] files[j], name) && enc_path(files[j].path@) == k
}

/// The walk context of a file: its path, its bytes, the language its name
/// gives, the source root and the catalog.
pub open spec fn file_ctx_ok(ctx: crate::extract::FileCtx, file: SourceFile, root: Seq<char>, catalog: Seq<SourceFile>) -> bool {
    &&& ctx.file_path@ == file.path@
    &&& file.contents matches Some(c) && ctx.source@ == c@
    &&& ctx.language == crate::extract::language_of(file.path@)
    &&& ctx.source_root@ == root
    &&& ctx.catalog@ == catalog
}

/// Some picked catalog file has this path key.
pub open spec fn picked(files: Seq<SourceFile>, picks: Seq<usize>, k: Seq<u32>) -> bool {
    exists|j: int| 0 <= j < picks.len() && picks[j] < files.len() && enc_path(files[#[trigger] picks[j] as int].path@) == k
}

/// Whether a catalog file's bytes hold a name (the text prefilter).
pub open spec fn file_mentions(f: SourceFile, name: Seq<char>) -> bool {
    &&& f.contents is Some
    &&& vstd::utf8::encode_utf8(name).len() > 0
    &&& exists|o: int| crate::extract::spelled_at(f.contents->0@, vstd::utf8::encode_utf8(name), o)
}

/// The keys of a sequence of contexts.
pub open spec fn ctx_keys(s: Seq<CompilationContext>) -> Seq<Seq<char>> {
    s.map_values(|c: CompilationContext| c.key.0@)
}

/// The strings of a sequence of keys.
pub open spec fn key_views(v: Seq<CompilationKey>) -> Seq<Seq<char>> {
    v.map_values(|k: CompilationKey| k.0@)
}

/// The keys of `s`, each once, in order of first occurrence.
pub open spec fn dedup_keys(s: Seq<Seq<char>>) -> Seq<Seq<char>>
    decreases s.len(),
{
    if s.len() == 0 {
        Seq::empty()
    } else {
        let d = dedup_keys(s.drop_last());
        if d.contains(s.last()) { d } else { d.push(s.last()) }
    }
}

pub proof fn lemma_dedup_empty(s: Seq<Seq<char>>)
    ensures
        (dedup_keys(s).len() == 0) == (s.len() == 0),
    decreases s.len(),
{
    if s.len() > 0 {
        lemma_dedup_empty(s.drop_last());
        let d = dedup_keys(s.drop_last());
        if d.contains(s.last()) {
            assert(d.len() > 0);
        }
    }
}

/// The contexts the database holds for a file.
pub open spec fn db_contexts(db: CompilationDb, file: Seq<char>) -> Seq<CompilationContext> {
    list_at(db.source_file_to_contexts, enc_path(file))
}

/// The context keys of each of `ps`, one file after the other.
pub open spec fn parent_keys(db: CompilationDb, ps: Seq<String>) -> Seq<Seq<char>>
    decreases ps.len(),
{
    if ps.len() == 0 {
        Seq::empty()
    } else {
        parent_keys(db, ps.drop_last()) + ctx_keys(db_contexts(db, ps.last()@))
    }
}

/// A copy of a list of keys.
pub fn clone_keys(v: &Vec<CompilationKey>) -> (r: Vec<CompilationKey>)
    ensures
        r@ == v@,
{
    let n = v.len();
    let mut out: Vec<CompilationKey> = Vec::new();
    for i in 0..n
        invariant
            n == v@.len(),
            out@ == v@.take(i as int),
    {
        out.push(v[i].clone());
        assert(v@.take(i + 1) =~= v@.take(i as int).push(v@[i as int]));
    }
    assert(v@.take(n as int) =~= v@);
    out
}

/// Whether `k` is among `v`.
pub fn contains_key(v: &Vec<CompilationKey>, k: &CompilationKey) -> (r: bool)
    ensures
        r == key_views(v@).contains(k.0@),
{
    let n = v.len();
    for i in 0..n
        invariant
            n == v@.len(),
            forall|j: int| 0 <= j < i ==> v@[j].0@ != k.0@,
    {
        if v[i].0 == k.0 {
            assert(key_views(v@)[i as int] == k.0@);
            return true;
        }
    }
    proof {
        assert forall|j: int| 0 <= j < key_views(v@).len() implies key_views(v@)[j] != k.0@ by {
            assert(key_views(v@)[j] == v@[j].0@);
        }
    }
    false
}

/// Appends the keys of `ctxs` not held yet.
pub fn push_context_keys(out: &mut Vec<CompilationKey>, ctxs: &[CompilationContext], Ghost(acc): Ghost<Seq<Seq<char>>>)
    requires
        key_views(old(out)@) == dedup_keys(acc),
    ensures
        key_views(final(out)@) == dedup_keys(acc + ctx_keys(ctxs@)),
{
    let n = ctxs.len();
    for i in 0..n
        invariant
            n == ctxs@.len(),
            key_views(out@) == dedup_keys(acc + ctx_keys(ctxs@.take(i as int))),
    {
        let ghost prev = acc + ctx_keys(ctxs@.take(i as int));
        assert(acc + ctx_keys(ctxs@.take(i + 1)) =~= prev.push(ctxs@[i as int].key.0@));
        assert((acc + ctx_keys(ctxs@.take(i + 1))).drop_last() =~= prev);
        if !contains_key(out, &ctxs[i].key) {
            let ghost before = out@;
            out.push(ctxs[i].key.clone());
            assert(key_views(out@) =~= key_views(before).push(ctxs@[i as int].key.0@));
        }
    }
    assert(ctxs@.take(n as int) =~= ctxs@);
}

/// Appends the calls of `extra` that `result` does not hold yet, in order.
/// `acc` followed by the items of `extra` it does not hold yet, each once, in
/// the order they first occur.
pub open spec fn added_missing(acc: Seq<CandidateCallId>, extra: Seq<CandidateCallId>) -> Seq<CandidateCallId>
    decreases extra.len(),
{
    if extra.len() == 0 {
        acc
    } else {
        let a = added_missing(acc, extra.drop_last());
        if a.contains(extra.last()) {
            a
        } else {
            a.push(extra.last())
        }
    }
}

pub fn append_missing(result: &mut Vec<CandidateCallId>, extra: &[CandidateCallId])
    ensures
        final(result)@ == added_missing(old(result)@, extra@),
        final(result)@.take(old(result)@.len() as int) == old(result)@,
        old(result)@.len() <= final(result)@.len(),
        forall|c: CandidateCallId| #[trigger] final(result)@.contains(c) <==> (old(result)@.contains(c) || extra@.contains(c)),
{
    let ghost l0 = result@;
    let ghost l1 = extra@;
    let n1 = extra.len();
    let mut i: usize = 0;
    while i < n1
        invariant
            i <= n1,
            n1 == l1.len(),
            extra@ == l1,
            result@.take(l0.len() as int) == l0,
            l0.len() <= result@.len(),
            forall|c: CandidateCallId| #[trigger] result@.contains(c) <==> (l0.contains(c) || l1.take(i as int).contains(c)),
            result@ == added_missing(l0, l1.take(i as int)),
        decreases n1 - i,
    {
        proof {
            assert(l1.take(i + 1).drop_last() =~= l1.take(i as int));
            assert(l1.take(i + 1).last() == l1[i as int]);
        }
        let c = extra[i];
        let ghost before = result@;
        let present = contains_call(result, c);
        if !present {
            result.push(c);
            assert(result@.take(l0.len() as int) == before.take(l0.len() as int));
        }
        proof {
            let t0 = l1.take(i as int);
            let t1 = l1.take(i + 1);
            assert(t1 == t0.push(c));
            assert(t1[i as int] == c);
            assert forall|x: CandidateCallId| result@.contains(x) implies (l0.contains(x) || t1.contains(x)) by {
                assert(before.contains(x) <==> (l0.contains(x) || t0.contains(x)));
                if before.contains(x) {
                    if t0.contains(x) {
                        let w = choose|w: int| 0 <= w < t0.len() && t0[w] == x;
                        assert(t1[w] == x);
                    }
                } else {
                    let w = choose|w: int| 0 <= w < result@.len() && result@[w] == x;
                    if w < before.len() {
                        assert(before[w] == x);
                    }
                    assert(x == c);
                }
            }
            assert forall|x: CandidateCallId| (l0.contains(x) || t1.contains(x)) implies result@.contains(x) by {
                assert(before.contains(x) <==> (l0.contains(x) || t0.contains(x)));
                if before.contains(x) {
                    let w = choose|w: int| 0 <= w < before.len() && before[w] == x;
                    assert(result@[w] == x);
                } else if t1.contains(x) {
                    let w = choose|w: int| 0 <= w < t1.len() && t1[w] == x;
                    if w < i {
                        assert(t0[w] == x);
                    } else {
                        assert(x == c);
                        if !present {
                            assert(result@[result@.len() - 1] == c);
                        }
                    }
                }
            }
        }
        i = i + 1;
    }
    assert(l1.take(n1 as int) =~= l1);
    assert(l1.take(n1 as int) == l1);
    assert forall|c: CandidateCallId| #[trigger] result@.contains(c) <==> (l0.contains(c) || l1.contains(c)) by {
        assert(result@.contains(c) <==> (l0.contains(c) || l1.take(n1 as int).contains(c)));
    }
}

/// Whether `c` is among `v`.
pub fn contains_call(v: &Vec<CandidateCallId>, c: CandidateCallId) -> (r: bool)
    ensures
        r == v@.contains(c),
{
    let n = v.len();
    for i in 0..n
        invariant
            n == v@.len(),
            forall|j: int| 0 <= j < i ==> v@[j] != c,
    {
        if v[i].0 == c.0 {
            assert(v@[i as int] == c);
            return true;
        }
    }
    false
}

/// The qualifier prefix of a qualified name: up to and including its last `::`.
pub open spec fn qualifier_prefix(qn: Seq<char>) -> Option<Seq<char>> {
    match last_occurrence(qn, seq![':', ':']) {
        Some(p) => Some(qn.take(p + 2)),
        None => None,
    }
}

/// The qualifier under which callers of a symbol may spell it.
pub open spec fn caller_qualifier(target: Symbol) -> Option<Seq<char>> {
    match target.qualified_name {
        Some(qn) => qualifier_prefix(qn@),
        None => None,
    }
}

pub(crate) fn qualifier_of(qn: &Option<String>) -> (r: Option<String>)
    ensures
        r matches Some(q) ==> (*qn matches Some(x) && qualifier_prefix(x@) == Some(q@)),
        r is None ==> (*qn is None || (*qn matches Some(x) && qualifier_prefix(x@) is None)),
{
    match qn {
        None => None,
        Some(x) => {
            let cs = chars_of(x.as_str());
            let sep = vec![':', ':'];
            assert(sep@ =~= seq![':', ':']);
            match rfind(&cs, &sep) {
                None => None,
                Some(p) => {
                    assert(crate::text::occurs_at(cs@, sep@, p as int));
                    assert(sep@.len() == 2 && cs@.len() == cs.len());
                    Some(string_of_range(&cs, 0, p + 2))
                },
            }
        },
    }
}

} // verus!
