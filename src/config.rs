use vstd::prelude::*;

use crate::cond::{cond_value, parse_cond, parse_spec, unset_var, unset_variable, CondError};
use crate::path::{expand_path, replace_envs_in_path, Environment};
use crate::system::{list_children, system_hostname};

verus! {

/// One link: the symlink at `link_path` points to `link_to`, when `cond` (if any) holds.
pub struct LinkConfig {
    pub link_path: String,
    pub link_to: String,
    cond: Option<String>,
    pub apply: bool,
}

/// The mathematical value of a `LinkConfig`.
pub ghost struct LinkView {
    pub link_path: Seq<char>,
    pub link_to: Seq<char>,
    pub cond: Option<Seq<char>>,
    pub apply: bool,
}

pub open spec fn opt_view(o: Option<String>) -> Option<Seq<char>> {
    match o {
        Some(s) => Some(s@),
        None => None,
    }
}

impl View for LinkConfig {
    type V = LinkView;

    closed spec fn view(&self) -> LinkView {
        LinkView {
            link_path: self.link_path@,
            link_to: self.link_to@,
            cond: opt_view(self.cond),
            apply: self.apply,
        }
    }
}

/// A named link, as its name and value.
pub type Entry = (Seq<char>, LinkView);

pub open spec fn entries_view(v: Seq<(String, LinkConfig)>) -> Seq<Entry> {
    v.map_values(|e: (String, LinkConfig)| (e.0@, e.1@))
}

pub open spec fn links_view(v: Seq<LinkConfig>) -> Seq<LinkView> {
    v.map_values(|l: LinkConfig| l@)
}

/// Position of the first entry named `k`.
pub open spec fn find_key(m: Seq<Entry>, k: Seq<char>) -> Option<int>
    decreases m.len(),
{
    if m.len() == 0 {
        None
    } else {
        match find_key(m.drop_last(), k) {
            Some(i) => Some(i),
            None => if m.last().0 == k {
                Some(m.len() - 1)
            } else {
                None
            },
        }
    }
}

/// `m` with the entry named `k` set to `v`: replaced in place, or added last.
pub open spec fn insert_entry(m: Seq<Entry>, k: Seq<char>, v: LinkView) -> Seq<Entry> {
    match find_key(m, k) {
        Some(i) => m.update(i, (k, v)),
        None => m.push((k, v)),
    }
}

/// A declaration applies when it has no condition or its condition holds.
pub open spec fn decl_applies(
    l: LinkView,
    env: Seq<(Seq<char>, Seq<char>)>,
    host: Seq<char>,
) -> bool {
    match l.cond {
        None => true,
        Some(c) => cond_value(c, env, host) == Some(true),
    }
}

/// An applying declaration with both of its paths expanded.
pub open spec fn resolved_link(l: LinkView, env: Seq<(Seq<char>, Seq<char>)>) -> LinkView {
    LinkView {
        link_path: expand_path(l.link_path, env),
        link_to: expand_path(l.link_to, env),
        cond: l.cond,
        apply: true,
    }
}

/// `m` after taking in the declarations `decls` in order.
pub open spec fn explicit_links(
    m: Seq<Entry>,
    decls: Seq<Entry>,
    env: Seq<(Seq<char>, Seq<char>)>,
    host: Seq<char>,
) -> Seq<Entry>
    decreases decls.len(),
{
    if decls.len() == 0 {
        m
    } else {
        let prev = explicit_links(m, decls.drop_last(), env, host);
        let d = decls.last();
        if decl_applies(d.1, env, host) {
            insert_entry(prev, d.0, resolved_link(d.1, env))
        } else {
            prev
        }
    }
}

/// The declarations whose condition does not parse, with the fault found.
pub open spec fn rejected(decls: Seq<Entry>) -> Seq<(Seq<char>, CondError)>
    decreases decls.len(),
{
    if decls.len() == 0 {
        Seq::empty()
    } else {
        let prev = rejected(decls.drop_last());
        let d = decls.last();
        match d.1.cond {
            Some(c) => match parse_spec(c) {
                Err(e) => prev.push((d.0, e)),
                Ok(_) => prev,
            },
            None => prev,
        }
    }
}

/// The unset variables that the declarations' conditions read, in order.
pub open spec fn unset_reads(decls: Seq<Entry>, env: Seq<(Seq<char>, Seq<char>)>) -> Seq<Seq<char>>
    decreases decls.len(),
{
    if decls.len() == 0 {
        Seq::empty()
    } else {
        let prev = unset_reads(decls.drop_last(), env);
        match decls.last().1.cond {
            Some(c) => match parse_spec(c) {
                Ok(p) => match unset_var(p.1, env) {
                    Some(n) => prev.push(n),
                    None => prev,
                },
                Err(_) => prev,
            },
            None => prev,
        }
    }
}

/// `dir` extended by the single component `name`.
pub open spec fn join_name(dir: Seq<char>, name: Seq<char>) -> Seq<char> {
    if dir.len() == 0 || dir.last() == '/' {
        dir + name
    } else {
        dir.push('/') + name
    }
}

/// The link that the scan makes for the directory entry `name`.
pub open spec fn scanned_link(wd: Seq<char>, fd: Seq<char>, name: Seq<char>) -> LinkView {
    LinkView {
        link_path: join_name(wd, name),
        link_to: join_name(fd, name),
        cond: None,
        apply: true,
    }
}

/// `m` after adding a link for each scanned name that it does not hold yet.
pub open spec fn merge_children(
    m: Seq<Entry>,
    wd: Seq<char>,
    fd: Seq<char>,
    children: Seq<Option<Seq<char>>>,
) -> Seq<Entry>
    decreases children.len(),
{
    if children.len() == 0 {
        m
    } else {
        let prev = merge_children(m, wd, fd, children.drop_last());
        match children.last() {
            Some(name) => if find_key(prev, name).is_some() {
                prev
            } else {
                prev.push((name, scanned_link(wd, fd, name)))
            },
            None => prev,
        }
    }
}

/// Why the scan of `link-from-dir` could not run.
#[derive(Debug, Clone, Copy, PartialEq, Eq, Structural)]
pub enum DirsError {
    MissingWorkingDir,
    MissingLinkFromDir,
    MissingBoth,
}

/// The parsed configuration: where scanned links go, where they point, whether
/// to scan, and the named declarations.
pub struct ConflinkConfig {
    working_dir: Option<String>,
    link_from_dir: Option<String>,
    link_all: bool,
    conflink: Vec<(String, LinkConfig)>,
    rejected_conds: Vec<(String, CondError)>,
    unset_vars: Vec<String>,
    dirs_error: Option<DirsError>,
}

pub ghost struct ConfigView {
    pub working_dir: Option<Seq<char>>,
    pub link_from_dir: Option<Seq<char>>,
    pub link_all: bool,
    pub conflink: Seq<Entry>,
    pub rejected: Seq<(Seq<char>, CondError)>,
    pub unset: Seq<Seq<char>>,
    pub dirs_error: Option<DirsError>,
}

pub open spec fn rejected_view(v: Seq<(String, CondError)>) -> Seq<(Seq<char>, CondError)> {
    v.map_values(|e: (String, CondError)| (e.0@, e.1))
}

impl View for ConflinkConfig {
    type V = ConfigView;

    closed spec fn view(&self) -> ConfigView {
        ConfigView {
            working_dir: opt_view(self.working_dir),
            link_from_dir: opt_view(self.link_from_dir),
            link_all: self.link_all,
            conflink: entries_view(self.conflink@),
            rejected: rejected_view(self.rejected_conds@),
            unset: self.unset_vars@.map_values(|n: String| n@),
            dirs_error: self.dirs_error,
        }
    }
}

/// The directories of the scan, expanded: `None` when scanning is off.
pub open spec fn dirs_spec(c: ConfigView, env: Seq<(Seq<char>, Seq<char>)>) -> Option<
    Result<(Seq<char>, Seq<char>), DirsError>,
> {
    if !c.link_all {
        None
    } else {
        match (c.working_dir, c.link_from_dir) {
            (Some(wd), Some(fd)) => Some(Ok((expand_path(wd, env), expand_path(fd, env)))),
            (None, Some(_)) => Some(Err(DirsError::MissingWorkingDir)),
            (Some(_), None) => Some(Err(DirsError::MissingLinkFromDir)),
            (None, None) => Some(Err(DirsError::MissingBoth)),
        }
    }
}

/// The named links that a configuration resolves to, given the host name and
/// the entries that the scan of `link-from-dir` found.
pub open spec fn resolve_spec(
    c: ConfigView,
    env: Seq<(Seq<char>, Seq<char>)>,
    host: Seq<char>,
    children: Seq<Option<Seq<char>>>,
) -> Seq<Entry> {
    let m = explicit_links(Seq::empty(), c.conflink, env, host);
    match dirs_spec(c, env) {
        Some(Ok(d)) => merge_children(m, d.0, d.1, children),
        _ => m,
    }
}

pub open spec fn entry_values(m: Seq<Entry>) -> Seq<LinkView> {
    m.map_values(|e: Entry| e.1)
}

/// Position of the entry named `key` in `map`.
pub fn find_entry(map: &Vec<(String, LinkConfig)>, key: &String) -> (r: Option<usize>)
    ensures
        match r {
            Some(i) => find_key(entries_view(map@), key@) == Some(i as int),
            None => find_key(entries_view(map@), key@).is_none(),
        },
{
    let mut i: usize = 0;
    while i < map.len()
        invariant
            i <= map@.len(),
            find_key(entries_view(map@).subrange(0, i as int), key@).is_none(),
        decreases map@.len() - i,
    {
        let ghost next = entries_view(map@).subrange(0, i + 1);
        proof {
            assert(next.drop_last() =~= entries_view(map@).subrange(0, i as int));
        }
        if map[i].0 == *key {
            proof {
                lemma_find_key_prefix(entries_view(map@), key@, i + 1);
            }
            return Some(i);
        }
        i += 1;
    }
    proof {
        assert(entries_view(map@).subrange(0, map@.len() as int) =~= entries_view(map@));
    }
    None
}

/// A found key lies in range and names the entry there; an absent key names none.
pub proof fn lemma_find_key(m: Seq<Entry>, k: Seq<char>)
    ensures
        match find_key(m, k) {
            Some(i) => 0 <= i < m.len() && m[i].0 == k && forall|j: int| 0 <= j < i ==> m[j].0 != k,
            None => forall|j: int| 0 <= j < m.len() ==> m[j].0 != k,
        },
    decreases m.len(),
{
    if m.len() > 0 {
        lemma_find_key(m.drop_last(), k);
        assert(forall|j: int| 0 <= j < m.len() - 1 ==> m.drop_last()[j] == #[trigger] m[j]);
    }
}

/// Finding a key in a prefix finds it in the whole.
pub proof fn lemma_find_key_prefix(m: Seq<Entry>, k: Seq<char>, n: int)
    requires
        0 <= n <= m.len(),
        find_key(m.subrange(0, n), k).is_some(),
    ensures
        find_key(m, k) == find_key(m.subrange(0, n), k),
    decreases m.len() - n,
{
    if n < m.len() {
        assert(m.subrange(0, n + 1).drop_last() =~= m.subrange(0, n));
        lemma_find_key_prefix(m, k, n + 1);
    } else {
        assert(m.subrange(0, n) =~= m);
    }
}

/// Sets the entry named `key` to `link`, in place or at the end.
pub fn insert_link(map: &mut Vec<(String, LinkConfig)>, key: String, link: LinkConfig)
    ensures
        entries_view(final(map)@) == insert_entry(entries_view(old(map)@), key@, link@),
{
    match find_entry(map, &key) {
        Some(i) => {
            proof {
                lemma_find_key(entries_view(map@), key@);
            }
            let ghost k = key@;
            let ghost v = link@;
            map[i] = (key, link);
            proof {
                assert(entries_view(map@) =~= entries_view(old(map)@).update(i as int, (k, v)));
            }
        },
        None => {
            let ghost k = key@;
            let ghost v = link@;
            map.push((key, link));
            proof {
                assert(entries_view(map@) =~= entries_view(old(map)@).push((k, v)));
            }
        },
    }
}

/// `dir` extended by the single component `name`.
pub fn join_path(dir: &str, name: &str) -> (r: String)
    ensures
        r@ == join_name(dir@, name@),
{
    let n = dir.unicode_len();
    let mut r = dir.to_owned();
    if n > 0 && dir.get_char(n - 1) != '/' {
        proof {
            reveal_strlit("/");
            assert("/"@ =~= seq!['/']);
        }
        r.append("/");
    }
    r.append(name);
    r
}

impl LinkConfig {
    /// A declaration of a link at `link_path` to `link_to`, applied only when `cond` (if any) holds.
    pub fn new(link_path: String, link_to: String, cond: Option<String>) -> (r: LinkConfig)
        ensures
            r@ == (LinkView {
                link_path: link_path@,
                link_to: link_to@,
                cond: opt_view(cond),
                apply: false,
            }),
    {
        LinkConfig { link_path, link_to, cond, apply: false }
    }

    /// Where the symlink is created.
    pub fn link_path(&self) -> (r: &String)
        ensures
            r@ == self@.link_path,
    {
        &self.link_path
    }

    /// What the symlink points to.
    pub fn link_to(&self) -> (r: &String)
        ensures
            r@ == self@.link_to,
    {
        &self.link_to
    }

    /// Whether the link survived resolution and is to be created.
    pub fn apply(&self) -> (r: bool)
        ensures
            r == self@.apply,
    {
        self.apply
    }

    /// The condition that gates the declaration, if any.
    pub fn cond(&self) -> (r: Option<&String>)
        ensures
            match r {
                Some(c) => self@.cond == Some(c@),
                None => self@.cond.is_none(),
            },
    {
        self.cond.as_ref()
    }
}


/// The name that a walk entry contributes: none for an entry that could not
/// be read, nor for the walked directory itself (depth 0).
pub open spec fn child_name(o: Option<(usize, String)>) -> Option<Seq<char>> {
    match o {
        Some((depth, name)) => if depth == 0 {
            None
        } else {
            Some(name@)
        },
        None => None,
    }
}

pub open spec fn names_view(v: Seq<Option<(usize, String)>>) -> Seq<Option<Seq<char>>> {
    v.map_values(|o: Option<(usize, String)>| child_name(o))
}

pub open spec fn dirs_view(r: Option<Result<(String, String), DirsError>>) -> Option<
    Result<(Seq<char>, Seq<char>), DirsError>,
> {
    match r {
        None => None,
        Some(Ok(d)) => Some(Ok((d.0@, d.1@))),
        Some(Err(e)) => Some(Err(e)),
    }
}

/// Adds to `config_map` a link for each scanned name that it does not hold
/// yet: `working_dir/name` pointing to `from_dir/name`. Names already there
/// keep their entries. `children` holds walk entries with their depth: the
/// walked directory itself (depth 0) and unreadable entries add nothing.
pub fn merge_scanned(
    config_map: &mut Vec<(String, LinkConfig)>,
    working_dir: &str,
    from_dir: &str,
    children: &Vec<Option<(usize, String)>>,
)
    ensures
        entries_view(final(config_map)@) == merge_children(
            entries_view(old(config_map)@),
            working_dir@,
            from_dir@,
            names_view(children@),
        ),
{
    let ghost m0 = entries_view(config_map@);
    let mut k: usize = 0;
    while k < children.len()
        invariant
            k <= children@.len(),
            entries_view(config_map@) == merge_children(
                m0,
                working_dir@,
                from_dir@,
                names_view(children@).subrange(0, k as int),
            ),
        decreases children@.len() - k,
    {
        let ghost next = names_view(children@).subrange(0, k + 1);
        proof {
            assert(next.drop_last() =~= names_view(children@).subrange(0, k as int));
            assert(next.last() == child_name(children@[k as int]));
        }
        match &children[k] {
            Some((depth, name)) => {
                if *depth > 0 && find_entry(config_map, name).is_none() {
                    let link = LinkConfig {
                        link_path: join_path(working_dir, name.as_str()),
                        link_to: join_path(from_dir, name.as_str()),
                        cond: None,
                        apply: true,
                    };
                    let ghost before = entries_view(config_map@);
                    config_map.push((name.clone(), link));
                    proof {
                        assert(entries_view(config_map@) =~= before.push((name@, link@)));
                        assert(link@ == scanned_link(working_dir@, from_dir@, name@));
                    }
                }
            },
            None => {},
        }
        k += 1;
    }
    proof {
        assert(names_view(children@).subrange(0, children@.len() as int) =~= names_view(children@));
    }
}

impl ConflinkConfig {
    /// Well formed: the declarations form a mapping, no two with one name.
    pub open spec fn wf(&self) -> bool {
        unique_names(self@.conflink)
    }

    /// A configuration with the given scan settings and named declarations,
    /// which must carry distinct names.
    pub fn new(
        working_dir: Option<String>,
        link_from_dir: Option<String>,
        link_all: bool,
        conflink: Vec<(String, LinkConfig)>,
    ) -> (r: ConflinkConfig)
        requires
            unique_names(entries_view(conflink@)),
        ensures
            r.wf(),
            r@ == (ConfigView {
                working_dir: opt_view(working_dir),
                link_from_dir: opt_view(link_from_dir),
                link_all,
                conflink: entries_view(conflink@),
                rejected: Seq::empty(),
                unset: Seq::empty(),
                dirs_error: None,
            }),
    {
        let r = ConflinkConfig {
            working_dir,
            link_from_dir,
            link_all,
            conflink,
            rejected_conds: Vec::new(),
            unset_vars: Vec::new(),
            dirs_error: None,
        };
        proof {
            assert(rejected_view(r.rejected_conds@) =~= Seq::empty());
            assert(r.unset_vars@.map_values(|n: String| n@) =~= Seq::empty());
        }
        r
    }

    /// The declarations whose condition did not parse, with the fault found.
    pub fn rejected_conditions(&self) -> (r: &Vec<(String, CondError)>)
        ensures
            rejected_view(r@) == self@.rejected,
    {
        &self.rejected_conds
    }

    /// The unset variables that conditions read (each made its condition false).
    pub fn unset_variables(&self) -> (r: &Vec<String>)
        ensures
            r@.map_values(|n: String| n@) == self@.unset,
    {
        &self.unset_vars
    }

    /// Why the scan of `link-from-dir` could not run, if it could not.
    pub fn dirs_error(&self) -> (r: Option<DirsError>)
        ensures
            r == self@.dirs_error,
    {
        self.dirs_error
    }

    /// Takes in every declaration: each whose condition holds (or that has
    /// none) is set in `config_map` under its name with both paths expanded;
    /// a condition that does not parse is recorded and its link left out.
    /// The declarations are drained.
    pub fn prepare_link_configs(
        &mut self,
        env: &Environment,
        hostname: &str,
        config_map: &mut Vec<(String, LinkConfig)>,
    )
        requires
            old(self).wf(),
        ensures
            final(self).wf(),
            forall|i: int|
                0 <= i < old(self)@.conflink.len() && decl_applies(
                    #[trigger] old(self)@.conflink[i].1,
                    env@,
                    hostname@,
                ) ==> (find_key(entries_view(final(config_map)@), old(self)@.conflink[i].0) matches Some(j)
                    && entries_view(final(config_map)@)[j] == (
                    old(self)@.conflink[i].0,
                    resolved_link(old(self)@.conflink[i].1, env@),
                )),
            forall|i: int|
                0 <= i < old(self)@.conflink.len() && !decl_applies(
                    #[trigger] old(self)@.conflink[i].1,
                    env@,
                    hostname@,
                ) && find_key(entries_view(old(config_map)@), old(self)@.conflink[i].0).is_none()
                    ==> find_key(entries_view(final(config_map)@), old(self)@.conflink[i].0).is_none(),
            entries_view(final(config_map)@) == explicit_links(
                entries_view(old(config_map)@),
                old(self)@.conflink,
                env@,
                hostname@,
            ),
            final(self)@ == (ConfigView {
                conflink: Seq::empty(),
                rejected: old(self)@.rejected + rejected(old(self)@.conflink),
                unset: old(self)@.unset + unset_reads(old(self)@.conflink, env@),
                ..old(self)@
            }),
    {
        let mut decls: Vec<(String, LinkConfig)> = Vec::new();
        std::mem::swap(&mut self.conflink, &mut decls);
        let ghost all = entries_view(decls@);
        let ghost m0 = entries_view(config_map@);
        let ghost r0 = rejected_view(self.rejected_conds@);
        let ghost u0 = self.unset_vars@.map_values(|n: String| n@);
        let total = decls.len();
        let mut idx: usize = 0;
        proof {
            assert(all.subrange(0, 0) =~= Seq::<Entry>::empty());
            assert(all.subrange(0, all.len() as int) =~= all);
            assert(r0 + rejected(Seq::<Entry>::empty()) =~= r0);
            assert(u0 + unset_reads(Seq::<Entry>::empty(), env@) =~= u0);
        }
        while decls.len() > 0
            invariant
                idx + decls@.len() == all.len(),
                all.len() == total,
                entries_view(decls@) == all.subrange(idx as int, all.len() as int),
                entries_view(config_map@) == explicit_links(m0, all.subrange(0, idx as int), env@, hostname@),
                rejected_view(self.rejected_conds@) == r0 + rejected(all.subrange(0, idx as int)),
                self.unset_vars@.map_values(|n: String| n@) == u0 + unset_reads(all.subrange(0, idx as int), env@),
                self.conflink@.len() == 0,
                self.working_dir == old(self).working_dir,
                self.link_from_dir == old(self).link_from_dir,
                self.link_all == old(self).link_all,
                self.dirs_error == old(self).dirs_error,
            decreases decls@.len(),
        {
            let ghost before = decls@;
            let (key, link) = decls.remove(0);
            let ghost next = all.subrange(0, idx + 1);
            proof {
                assert(entries_view(before)[0] == (key@, link@));
                assert(next.drop_last() =~= all.subrange(0, idx as int));
                assert(next.last() == (key@, link@));
                assert(decls@ =~= before.subrange(1, before.len() as int));
                assert(forall|j: int| 0 <= j < decls@.len() ==> #[trigger] entries_view(decls@)[j] == entries_view(before)[j + 1]);
                assert(entries_view(decls@) =~= all.subrange(idx + 1, all.len() as int));
            }
            let LinkConfig { link_path, link_to, cond, apply: _ } = link;
            let applies = match &cond {
                Some(c) => match parse_cond(c.as_str()) {
                    Ok(pc) => {
                        match unset_variable(pc.lhs.as_str(), env) {
                            Some(n) => {
                                let ghost ub = self.unset_vars@.map_values(|n: String| n@);
                                let ghost nv = n@;
                                self.unset_vars.push(n);
                                proof {
                                    assert(self.unset_vars@.map_values(|n: String| n@) =~= ub.push(nv));
                                }
                            },
                            None => {},
                        }
                        pc.op.eval(pc.lhs.as_str(), pc.rhs.as_str(), env, hostname)
                    },
                    Err(e) => {
                        let ghost rb = rejected_view(self.rejected_conds@);
                        self.rejected_conds.push((key.clone(), e));
                        proof {
                            assert(rejected_view(self.rejected_conds@) =~= rb.push((key@, e)));
                        }
                        false
                    },
                },
                None => true,
            };
            if applies {
                let resolved = LinkConfig {
                    link_path: replace_envs_in_path(link_path, env),
                    link_to: replace_envs_in_path(link_to, env),
                    cond,
                    apply: true,
                };
                insert_link(config_map, key, resolved);
            }
            proof {
                assert(r0 + rejected(next) =~= rejected_view(self.rejected_conds@));
                assert(u0 + unset_reads(next, env@) =~= self.unset_vars@.map_values(|n: String| n@));
            }
            idx += 1;
        }
        proof {
            assert(entries_view(self.conflink@) =~= Seq::<Entry>::empty());
            assert(all.subrange(0, idx as int) =~= all);
            assert forall|i: int|
                0 <= i < all.len() && decl_applies(#[trigger] all[i].1, env@, hostname@) implies (
                find_key(entries_view(config_map@), all[i].0) matches Some(j)
                    && entries_view(config_map@)[j] == (all[i].0, resolved_link(all[i].1, env@))) by {
                lemma_explicit_entry(m0, all, env@, hostname@, i);
            }
            assert forall|i: int|
                0 <= i < all.len() && !decl_applies(#[trigger] all[i].1, env@, hostname@) && find_key(
                    m0,
                    all[i].0,
                ).is_none() implies find_key(entries_view(config_map@), all[i].0).is_none() by {
                assert forall|j: int|
                    0 <= j < all.len() && all[j].0 == all[i].0 implies !decl_applies(
                    #[trigger] all[j].1,
                    env@,
                    hostname@,
                ) by {
                    assert(!(j < i) && !(i < j));
                }
                lemma_explicit_absent(m0, all, env@, hostname@, all[i].0);
            }
        }
    }

    /// The directories of the scan, both expanded, when `link_all` is set:
    /// or which of them is missing.
    pub fn link_all_dirs(&self, env: &Environment) -> (r: Option<Result<(String, String), DirsError>>)
        ensures
            dirs_view(r) == dirs_spec(self@, env@),
    {
        if !self.link_all {
            return None;
        }
        match (&self.working_dir, &self.link_from_dir) {
            (Some(wd), Some(fd)) => Some(
                Ok((replace_envs_in_path(wd.clone(), env), replace_envs_in_path(fd.clone(), env))),
            ),
            (None, Some(_)) => Some(Err(DirsError::MissingWorkingDir)),
            (Some(_), None) => Some(Err(DirsError::MissingLinkFromDir)),
            (None, None) => Some(Err(DirsError::MissingBoth)),
        }
    }

    /// When `link_all` is set, scans `link-from-dir` one level deep and adds
    /// a link for each entry whose name `config_map` does not hold yet; a
    /// missing directory setting is recorded instead.
    fn prepare_general_links(&mut self, env: &Environment, config_map: &mut Vec<(String, LinkConfig)>)
        ensures
            match dirs_spec(old(self)@, env@) {
                Some(Ok(d)) => exists|ch: Seq<Option<Seq<char>>>|
                    entries_view(final(config_map)@) == #[trigger] merge_children(
                        entries_view(old(config_map)@),
                        d.0,
                        d.1,
                        ch,
                    ),
                _ => entries_view(final(config_map)@) == entries_view(old(config_map)@),
            },
            final(self)@ == (ConfigView {
                dirs_error: match dirs_spec(old(self)@, env@) {
                    Some(Err(e)) => Some(e),
                    _ => old(self)@.dirs_error,
                },
                ..old(self)@
            }),
    {
        let dirs = self.link_all_dirs(env);
        proof {
            assert(dirs_view(dirs) == dirs_spec(old(self)@, env@));
        }
        match dirs {
            None => {},
            Some(Err(e)) => {
                self.dirs_error = Some(e);
            },
            Some(Ok((working_dir, from_dir))) => {
                let children = list_children(&from_dir);
                merge_scanned(config_map, working_dir.as_str(), from_dir.as_str(), &children);
                proof {
                    let ch = names_view(children@);
                    let d = dirs_spec(old(self)@, env@).unwrap()->Ok_0;
                    assert(d.0 == working_dir@ && d.1 == from_dir@);
                    assert(entries_view(config_map@) == merge_children(
                        entries_view(old(config_map)@),
                        working_dir@,
                        from_dir@,
                        ch,
                    ));
                }
            },
        }
    }

    /// Resolves the configuration into the links to create: the declarations
    /// that apply, with expanded paths, and, when `link_all` is set, a link
    /// for each entry of `link-from-dir` not named by one of them. The host
    /// name and the directory entries are read from the system.
    pub fn prepare_links(&mut self, env: &Environment) -> (r: Vec<LinkConfig>)
        requires
            old(self).wf(),
        ensures
            final(self).wf(),
            exists|host: Seq<char>, ch: Seq<Option<Seq<char>>>|
                links_view(r@) == entry_values(#[trigger] resolve_spec(old(self)@, env@, host, ch))
                    && resolution_holds(old(self)@, env@, host, ch),
            final(self)@ == (ConfigView {
                conflink: Seq::empty(),
                rejected: old(self)@.rejected + rejected(old(self)@.conflink),
                unset: old(self)@.unset + unset_reads(old(self)@.conflink, env@),
                dirs_error: match dirs_spec(old(self)@, env@) {
                    Some(Err(e)) => Some(e),
                    _ => old(self)@.dirs_error,
                },
                ..old(self)@
            }),
    {
        let hostname = system_hostname();
        let mut config_map: Vec<(String, LinkConfig)> = Vec::new();
        proof {
            assert(entries_view(config_map@) =~= Seq::<Entry>::empty());
        }
        self.prepare_link_configs(env, hostname.as_str(), &mut config_map);
        let ghost explicit = entries_view(config_map@);
        self.prepare_general_links(env, &mut config_map);
        let ghost ch = choose|ch: Seq<Option<Seq<char>>>|
            entries_view(config_map@) == #[trigger] merge_children(
                explicit,
                dirs_spec(old(self)@, env@).unwrap()->Ok_0.0,
                dirs_spec(old(self)@, env@).unwrap()->Ok_0.1,
                ch,
            );
        let r = into_links(config_map);
        proof {
            assert(links_view(r@) == entry_values(resolve_spec(old(self)@, env@, hostname@, ch)));
            lemma_resolution_holds(old(self)@, env@, hostname@, ch);
        }
        r
    }
}

/// The links of `map`, in order, without their names.
pub fn into_links(map: Vec<(String, LinkConfig)>) -> (r: Vec<LinkConfig>)
    ensures
        links_view(r@) == entry_values(entries_view(map@)),
{
    let ghost all = entries_view(map@);
    let mut map = map;
    let total = map.len();
    let mut out: Vec<LinkConfig> = Vec::new();
    let mut idx: usize = 0;
    proof {
        assert(links_view(out@) =~= entry_values(all.subrange(0, 0)));
        assert(entries_view(map@) =~= all.subrange(0, all.len() as int));
    }
    while map.len() > 0
        invariant
            idx + map@.len() == all.len(),
            all.len() == total,
            entries_view(map@) == all.subrange(idx as int, all.len() as int),
            links_view(out@) == entry_values(all.subrange(0, idx as int)),
        decreases map@.len(),
    {
        let ghost before = map@;
        let (_, link) = map.remove(0);
        proof {
            assert(entries_view(before)[0].1 == link@);
            assert(map@ =~= before.subrange(1, before.len() as int));
            assert(forall|j: int| 0 <= j < map@.len() ==> #[trigger] entries_view(map@)[j] == entries_view(before)[j + 1]);
            assert(entries_view(map@) =~= all.subrange(idx + 1, all.len() as int));
        }
        let ghost out0 = out@;
        out.push(link);
        proof {
            assert(all.subrange(0, idx + 1) =~= all.subrange(0, idx as int).push(all[idx as int]));
            assert(links_view(out@) =~= links_view(out0).push(link@));
            assert(links_view(out@) =~= entry_values(all.subrange(0, idx + 1)));
        }
        idx += 1;
    }
    proof {
        assert(all.subrange(0, idx as int) =~= all);
    }
    out
}


/// No two declarations share a name (they come from a mapping).
pub open spec fn unique_names(decls: Seq<Entry>) -> bool {
    forall|a: int, b: int| 0 <= a < b < decls.len() ==> decls[a].0 != decls[b].0
}

/// Setting `k` leaves it found with the new value, and every other name
/// found where it was, with its entry.
proof fn lemma_insert_entry(m: Seq<Entry>, k: Seq<char>, v: LinkView, k2: Seq<char>)
    ensures
        find_key(insert_entry(m, k, v), k) matches Some(j) && insert_entry(m, k, v)[j] == (k, v),
        k2 != k ==> find_key(insert_entry(m, k, v), k2) == find_key(m, k2),
        k2 != k ==> (find_key(m, k2) matches Some(j2) ==> insert_entry(m, k, v)[j2] == m[j2]),
{
    let r = insert_entry(m, k, v);
    lemma_find_key(m, k);
    lemma_find_key(m, k2);
    lemma_find_key(r, k);
    lemma_find_key(r, k2);
    match find_key(m, k) {
        Some(i) => {
            assert(r[i] == (k, v));
            assert(r.len() == m.len());
            assert(forall|j: int| 0 <= j < m.len() && j != i ==> #[trigger] r[j] == m[j]);
        },
        None => {
            assert(r[m.len() as int] == (k, v));
            assert(forall|j: int| 0 <= j < m.len() ==> #[trigger] r[j] == m[j]);
        },
    }
    if k2 != k {
        assert(forall|j: int| 0 <= j < r.len() ==> (#[trigger] r[j].0 == k2 <==> j < m.len() && m[j].0 == k2));
        match find_key(m, k2) {
            Some(a) => {
                assert(r[a].0 == k2);
                match find_key(r, k2) {
                    Some(b) => {
                        assert(r[b].0 == k2);
                        assert(!(a < b));
                        assert(!(b < a));
                    },
                    None => {},
                }
            },
            None => {
                match find_key(r, k2) {
                    Some(b) => {
                        assert(r[b].0 == k2);
                    },
                    None => {},
                }
            },
        }
    }
}

/// Adding a name that is not there keeps every name that is.
proof fn lemma_push_keeps(m: Seq<Entry>, x: Entry, k: Seq<char>)
    requires
        find_key(m, k).is_some(),
    ensures
        find_key(m.push(x), k) == find_key(m, k),
        m.push(x)[find_key(m, k).unwrap()] == m[find_key(m, k).unwrap()],
{
    lemma_find_key(m, k);
    lemma_find_key(m.push(x), k);
}

/// An applying declaration ends up in the explicit links under its name,
/// with its paths expanded.
proof fn lemma_explicit_entry(
    m: Seq<Entry>,
    decls: Seq<Entry>,
    env: Seq<(Seq<char>, Seq<char>)>,
    host: Seq<char>,
    i: int,
)
    requires
        unique_names(decls),
        0 <= i < decls.len(),
        decl_applies(decls[i].1, env, host),
    ensures
        find_key(explicit_links(m, decls, env, host), decls[i].0) matches Some(j)
            && explicit_links(m, decls, env, host)[j] == (decls[i].0, resolved_link(decls[i].1, env)),
    decreases decls.len(),
{
    let init = decls.drop_last();
    let prev = explicit_links(m, init, env, host);
    let d = decls.last();
    let k = decls[i].0;
    if i == decls.len() - 1 {
        lemma_insert_entry(prev, d.0, resolved_link(d.1, env), k);
    } else {
        assert(unique_names(init));
        assert(init[i] == decls[i]);
        lemma_explicit_entry(m, init, env, host, i);
        assert(d.0 != k);
        if decl_applies(d.1, env, host) {
            lemma_insert_entry(prev, d.0, resolved_link(d.1, env), k);
        }
    }
}

/// A name that no applying declaration carries stays absent.
proof fn lemma_explicit_absent(
    m: Seq<Entry>,
    decls: Seq<Entry>,
    env: Seq<(Seq<char>, Seq<char>)>,
    host: Seq<char>,
    k: Seq<char>,
)
    requires
        find_key(m, k).is_none(),
        forall|j: int| 0 <= j < decls.len() && decls[j].0 == k ==> !decl_applies(#[trigger] decls[j].1, env, host),
    ensures
        find_key(explicit_links(m, decls, env, host), k).is_none(),
    decreases decls.len(),
{
    if decls.len() > 0 {
        let init = decls.drop_last();
        assert(forall|j: int| 0 <= j < init.len() ==> #[trigger] init[j] == decls[j]);
        lemma_explicit_absent(m, init, env, host, k);
        let d = decls.last();
        assert(d == decls[decls.len() - 1]);
        if decl_applies(d.1, env, host) {
            lemma_insert_entry(explicit_links(m, init, env, host), d.0, resolved_link(d.1, env), k);
        }
    }
}

/// The scan only adds names: a name already present keeps its place and entry.
proof fn lemma_merge_keeps(
    m: Seq<Entry>,
    wd: Seq<char>,
    fd: Seq<char>,
    children: Seq<Option<Seq<char>>>,
    k: Seq<char>,
)
    requires
        find_key(m, k).is_some(),
    ensures
        find_key(merge_children(m, wd, fd, children), k) == find_key(m, k),
        merge_children(m, wd, fd, children)[find_key(m, k).unwrap()] == m[find_key(m, k).unwrap()],
    decreases children.len(),
{
    if children.len() > 0 {
        let prev = merge_children(m, wd, fd, children.drop_last());
        lemma_merge_keeps(m, wd, fd, children.drop_last(), k);
        match children.last() {
            Some(name) => {
                if find_key(prev, name).is_none() {
                    lemma_push_keeps(prev, (name, scanned_link(wd, fd, name)), k);
                }
            },
            None => {},
        }
    }
}

/// A name that the scan did not find stays absent.
proof fn lemma_merge_absent(
    m: Seq<Entry>,
    wd: Seq<char>,
    fd: Seq<char>,
    children: Seq<Option<Seq<char>>>,
    k: Seq<char>,
)
    requires
        find_key(m, k).is_none(),
        !children.contains(Some(k)),
    ensures
        find_key(merge_children(m, wd, fd, children), k).is_none(),
    decreases children.len(),
{
    if children.len() > 0 {
        let init = children.drop_last();
        assert(!init.contains(Some(k))) by {
            assert(forall|j: int| 0 <= j < init.len() ==> #[trigger] init[j] == children[j]);
        }
        lemma_merge_absent(m, wd, fd, init, k);
        let prev = merge_children(m, wd, fd, init);
        assert(children[children.len() - 1] == children.last());
        match children.last() {
            Some(name) => {
                if find_key(prev, name).is_none() {
                    lemma_find_key(prev, k);
                    lemma_find_key(prev.push((name, scanned_link(wd, fd, name))), k);
                }
            },
            None => {},
        }
    }
}

/// Precedence: a declaration that applies is in the resolved set under its
/// name with its own (expanded) paths, whatever the scan of `link-from-dir`
/// found, an entry of the same name included.
pub proof fn lemma_declaration_precedence(
    c: ConfigView,
    env: Seq<(Seq<char>, Seq<char>)>,
    host: Seq<char>,
    children: Seq<Option<Seq<char>>>,
    i: int,
)
    requires
        unique_names(c.conflink),
        0 <= i < c.conflink.len(),
        decl_applies(c.conflink[i].1, env, host),
    ensures
        find_key(resolve_spec(c, env, host, children), c.conflink[i].0) matches Some(j)
            && resolve_spec(c, env, host, children)[j] == (
            c.conflink[i].0,
            resolved_link(c.conflink[i].1, env),
        ),
{
    let m = explicit_links(Seq::empty(), c.conflink, env, host);
    lemma_explicit_entry(Seq::empty(), c.conflink, env, host, i);
    match dirs_spec(c, env) {
        Some(Ok(d)) => {
            lemma_merge_keeps(m, d.0, d.1, children, c.conflink[i].0);
        },
        _ => {},
    }
}

/// A declaration without a condition is in the resolved set, marked as
/// applying.
pub proof fn lemma_unconditional_applies(
    c: ConfigView,
    env: Seq<(Seq<char>, Seq<char>)>,
    host: Seq<char>,
    children: Seq<Option<Seq<char>>>,
    i: int,
)
    requires
        unique_names(c.conflink),
        0 <= i < c.conflink.len(),
        c.conflink[i].1.cond.is_none(),
    ensures
        find_key(resolve_spec(c, env, host, children), c.conflink[i].0) matches Some(j)
            && resolve_spec(c, env, host, children)[j].1.apply,
{
    lemma_declaration_precedence(c, env, host, children, i);
}

/// A declaration whose condition evaluates to false is left out: its name is
/// absent from the resolved set unless the scan found an entry of that name.
pub proof fn lemma_false_condition_excluded(
    c: ConfigView,
    env: Seq<(Seq<char>, Seq<char>)>,
    host: Seq<char>,
    children: Seq<Option<Seq<char>>>,
    i: int,
)
    requires
        unique_names(c.conflink),
        0 <= i < c.conflink.len(),
        c.conflink[i].1.cond matches Some(g) && cond_value(g, env, host) == Some(false),
        !children.contains(Some(c.conflink[i].0)),
    ensures
        find_key(resolve_spec(c, env, host, children), c.conflink[i].0).is_none(),
{
    lemma_excluded(c, env, host, children, i);
}

proof fn lemma_excluded(
    c: ConfigView,
    env: Seq<(Seq<char>, Seq<char>)>,
    host: Seq<char>,
    children: Seq<Option<Seq<char>>>,
    i: int,
)
    requires
        unique_names(c.conflink),
        0 <= i < c.conflink.len(),
        !decl_applies(c.conflink[i].1, env, host),
        !children.contains(Some(c.conflink[i].0)),
    ensures
        find_key(resolve_spec(c, env, host, children), c.conflink[i].0).is_none(),
{
    let k = c.conflink[i].0;
    let e = Seq::<Entry>::empty();
    assert(find_key(e, k).is_none());
    lemma_explicit_absent(e, c.conflink, env, host, k);
    match dirs_spec(c, env) {
        Some(Ok(d)) => {
            lemma_merge_absent(explicit_links(e, c.conflink, env, host), d.0, d.1, children, k);
        },
        _ => {},
    }
}

/// Each rejected condition is recorded with its declaration's name.
proof fn lemma_rejected_recorded(decls: Seq<Entry>, i: int, g: Seq<char>, err: CondError)
    requires
        0 <= i < decls.len(),
        decls[i].1.cond == Some(g),
        parse_spec(g) == Err::<(crate::cond::Operation, Seq<char>, Seq<char>), CondError>(err),
    ensures
        rejected(decls).contains((decls[i].0, err)),
    decreases decls.len(),
{
    let init = decls.drop_last();
    let prev = rejected(init);
    if i == decls.len() - 1 {
        assert(prev.push((decls[i].0, err))[prev.len() as int] == (decls[i].0, err));
    } else {
        assert(init[i] == decls[i]);
        lemma_rejected_recorded(init, i, g, err);
        let w = choose|w: int| 0 <= w < prev.len() && prev[w] == (decls[i].0, err);
        let d = decls.last();
        match d.1.cond {
            Some(c2) => match parse_spec(c2) {
                Err(e2) => {
                    assert(prev.push((d.0, e2))[w] == prev[w]);
                },
                Ok(_) => {},
            },
            None => {},
        }
    }
}

/// A declaration whose condition does not parse is left out, and the fault
/// is recorded under its name.
pub proof fn lemma_malformed_condition_excluded(
    c: ConfigView,
    env: Seq<(Seq<char>, Seq<char>)>,
    host: Seq<char>,
    children: Seq<Option<Seq<char>>>,
    i: int,
)
    requires
        unique_names(c.conflink),
        0 <= i < c.conflink.len(),
        c.conflink[i].1.cond matches Some(g) && parse_spec(g).is_err(),
        !children.contains(Some(c.conflink[i].0)),
    ensures
        find_key(resolve_spec(c, env, host, children), c.conflink[i].0).is_none(),
        rejected(c.conflink).contains((c.conflink[i].0, parse_spec(c.conflink[i].1.cond.unwrap())->Err_0)),
{
    let g = c.conflink[i].1.cond.unwrap();
    lemma_excluded(c, env, host, children, i);
    lemma_rejected_recorded(c.conflink, i, g, parse_spec(g)->Err_0);
}


/// A scanned name that the map lacks ends up in it with the scan's link.
proof fn lemma_merge_adds(
    m: Seq<Entry>,
    wd: Seq<char>,
    fd: Seq<char>,
    children: Seq<Option<Seq<char>>>,
    name: Seq<char>,
)
    requires
        find_key(m, name).is_none(),
        children.contains(Some(name)),
    ensures
        find_key(merge_children(m, wd, fd, children), name) matches Some(j)
            && merge_children(m, wd, fd, children)[j] == (name, scanned_link(wd, fd, name)),
    decreases children.len(),
{
    let init = children.drop_last();
    let prev = merge_children(m, wd, fd, init);
    assert(children[children.len() - 1] == children.last());
    if init.contains(Some(name)) {
        lemma_merge_adds(m, wd, fd, init, name);
        match children.last() {
            Some(n2) => {
                if find_key(prev, n2).is_none() {
                    lemma_push_keeps(prev, (n2, scanned_link(wd, fd, n2)), name);
                }
            },
            None => {},
        }
    } else {
        let w = choose|w: int| 0 <= w < children.len() && children[w] == Some(name);
        if w < children.len() - 1 {
            assert(init[w] == children[w]);
        }
        assert(children.last() == Some(name));
        lemma_merge_absent(m, wd, fd, init, name);
        let x = (name, scanned_link(wd, fd, name));
        lemma_find_key(prev, name);
        lemma_find_key(prev.push(x), name);
        assert(prev.push(x)[prev.len() as int] == x);
    }
}

/// What the resolved set owes, for a host name and a scan result: each
/// declaration that applies is there under its name with its own paths
/// (scanned entries of the same name make no difference), and each scanned
/// name that no applying declaration carries is there with the scan's link.
pub open spec fn resolution_holds(
    c: ConfigView,
    env: Seq<(Seq<char>, Seq<char>)>,
    host: Seq<char>,
    children: Seq<Option<Seq<char>>>,
) -> bool {
    let r = resolve_spec(c, env, host, children);
    let dirs = dirs_spec(c, env);
    &&& forall|i: int|
        0 <= i < c.conflink.len() && decl_applies(#[trigger] c.conflink[i].1, env, host) ==> (find_key(
            r,
            c.conflink[i].0,
        ) matches Some(j) && r[j] == (c.conflink[i].0, resolved_link(c.conflink[i].1, env)))
    &&& forall|name: Seq<char>|
        #![trigger children.contains(Some(name))]
        dirs matches Some(Ok(_)) && children.contains(Some(name)) && (forall|i: int|
            0 <= i < c.conflink.len() && c.conflink[i].0 == name ==> !decl_applies(
                #[trigger] c.conflink[i].1,
                env,
                host,
            )) ==> (find_key(r, name) matches Some(j) && r[j] == (
            name,
            scanned_link(dirs->Some_0->Ok_0.0, dirs->Some_0->Ok_0.1, name),
        ))
}

/// Precedence and scan links: for declarations with distinct names, the
/// resolved set holds every applying declaration with its own paths, and a
/// scan link for every scanned name that no applying declaration carries.
pub proof fn lemma_resolution_holds(
    c: ConfigView,
    env: Seq<(Seq<char>, Seq<char>)>,
    host: Seq<char>,
    children: Seq<Option<Seq<char>>>,
)
    requires
        unique_names(c.conflink),
    ensures
        resolution_holds(c, env, host, children),
{
    let r = resolve_spec(c, env, host, children);
    assert forall|i: int|
        0 <= i < c.conflink.len() && decl_applies(#[trigger] c.conflink[i].1, env, host) implies (find_key(
        r,
        c.conflink[i].0,
    ) matches Some(j) && r[j] == (c.conflink[i].0, resolved_link(c.conflink[i].1, env))) by {
        lemma_declaration_precedence(c, env, host, children, i);
    }
    assert forall|name: Seq<char>|
        dirs_spec(c, env) matches Some(Ok(_)) && #[trigger] children.contains(Some(name)) && (forall|i: int|
            0 <= i < c.conflink.len() && c.conflink[i].0 == name ==> !decl_applies(
                #[trigger] c.conflink[i].1,
                env,
                host,
            )) implies (find_key(r, name) matches Some(j) && r[j] == (
        name,
        scanned_link(dirs_spec(c, env)->Some_0->Ok_0.0, dirs_spec(c, env)->Some_0->Ok_0.1, name),
    )) by {
        let d = dirs_spec(c, env)->Some_0->Ok_0;
        let e = Seq::<Entry>::empty();
        assert(find_key(e, name).is_none());
        lemma_explicit_absent(e, c.conflink, env, host, name);
        lemma_merge_adds(explicit_links(e, c.conflink, env, host), d.0, d.1, children, name);
    }
}

} // verus!
