use vstd::prelude::*;

verus! {

/// A snapshot of the process environment: name/value pairs, later entries
/// overriding earlier ones with the same name.
pub struct Environment {
    vars: Vec<(String, String)>,
}

pub open spec fn lookup(vars: Seq<(Seq<char>, Seq<char>)>, name: Seq<char>) -> Option<Seq<char>>
    decreases vars.len(),
{
    if vars.len() == 0 {
        None
    } else if vars.last().0 == name {
        Some(vars.last().1)
    } else {
        lookup(vars.drop_last(), name)
    }
}

impl View for Environment {
    type V = Seq<(Seq<char>, Seq<char>)>;

    closed spec fn view(&self) -> Seq<(Seq<char>, Seq<char>)> {
        self.vars@.map_values(|e: (String, String)| (e.0@, e.1@))
    }
}

/// Character-wise equality of two strings.
pub fn str_eq(a: &str, b: &str) -> (r: bool)
    ensures
        r == (a@ == b@),
{
    let n = a.unicode_len();
    if n != b.unicode_len() {
        return false;
    }
    let mut i: usize = 0;
    while i < n
        invariant
            n == a@.len(),
            n == b@.len(),
            i <= n,
            forall|k: int| 0 <= k < i ==> a@[k] == b@[k],
        decreases n - i,
    {
        if a.get_char(i) != b.get_char(i) {
            return false;
        }
        i += 1;
    }
    assert(a@ =~= b@);
    true
}

impl Environment {
    pub fn new() -> (r: Environment)
        ensures
            r@ == Seq::<(Seq<char>, Seq<char>)>::empty(),
    {
        let r = Environment { vars: Vec::new() };
        assert(r@ =~= Seq::<(Seq<char>, Seq<char>)>::empty());
        r
    }

    /// Records a variable; it overrides any earlier value of the same name.
    pub fn set(&mut self, name: String, value: String)
        ensures
            final(self)@ == old(self)@.push((name@, value@)),
    {
        self.vars.push((name, value));
        assert(self@ =~= old(self)@.push((name@, value@)));
    }

    /// The current value of the variable `name`, if it is set.
    pub fn get(&self, name: &str) -> (r: Option<&String>)
        ensures
            match r {
                Some(v) => lookup(self@, name@) == Some(v@),
                None => lookup(self@, name@).is_none(),
            },
    {
        let mut i: usize = self.vars.len();
        proof {
            assert(self@.subrange(0, i as int) =~= self@);
        }
        while i > 0
            invariant
                i <= self.vars@.len(),
                lookup(self@, name@) == lookup(self@.subrange(0, i as int), name@),
            decreases i,
        {
            proof {
                assert(self@.subrange(0, i as int).drop_last() =~= self@.subrange(0, i - 1));
            }
            if str_eq(self.vars[i - 1].0.as_str(), name) {
                return Some(&self.vars[i - 1].1);
            }
            i -= 1;
        }
        proof {
            assert(self@.subrange(0, 0) =~= Seq::<(Seq<char>, Seq<char>)>::empty());
        }
        None
    }
}

// ---------------------------------------------------------------------------
// Path components
// ---------------------------------------------------------------------------

/// The segment after the last separator of `p`.
pub open spec fn trailing(p: Seq<char>) -> Seq<char>
    decreases p.len(),
{
    if p.len() == 0 {
        Seq::empty()
    } else if p.last() == '/' {
        Seq::empty()
    } else {
        trailing(p.drop_last()).push(p.last())
    }
}

/// The non-empty segments of `p` that a later separator has closed.
pub open spec fn closed_segments(p: Seq<char>) -> Seq<Seq<char>>
    decreases p.len(),
{
    if p.len() == 0 {
        Seq::empty()
    } else if p.last() == '/' && trailing(p.drop_last()).len() > 0 {
        closed_segments(p.drop_last()).push(trailing(p.drop_last()))
    } else {
        closed_segments(p.drop_last())
    }
}

/// The components of a path: its non-empty '/'-separated segments, in order.
pub open spec fn components(p: Seq<char>) -> Seq<Seq<char>> {
    if trailing(p).len() > 0 {
        closed_segments(p).push(trailing(p))
    } else {
        closed_segments(p)
    }
}

pub open spec fn is_absolute(p: Seq<char>) -> bool {
    p.len() > 0 && p[0] == '/'
}

/// A well-formed component: non-empty and free of separators.
pub open spec fn is_component(c: Seq<char>) -> bool {
    c.len() > 0 && !c.contains('/')
}

/// The components joined by single separators.
pub open spec fn join(cs: Seq<Seq<char>>) -> Seq<char>
    decreases cs.len(),
{
    if cs.len() == 0 {
        Seq::empty()
    } else if cs.len() == 1 {
        cs[0]
    } else {
        join(cs.drop_last()).push('/') + cs.last()
    }
}

/// The path written from a root flag and a list of components.
pub open spec fn render(absolute: bool, cs: Seq<Seq<char>>) -> Seq<char> {
    if absolute {
        seq!['/'] + join(cs)
    } else {
        join(cs)
    }
}

/// Whether a component refers to an environment variable.
pub open spec fn is_reference(c: Seq<char>) -> bool {
    c.len() > 0 && c[0] == '$'
}

/// Appending a variable's value: an absolute value restarts the path.
pub open spec fn splice(st: (bool, Seq<Seq<char>>), v: Seq<char>) -> (bool, Seq<Seq<char>>) {
    if is_absolute(v) {
        (true, components(v))
    } else {
        (st.0, st.1 + components(v))
    }
}

/// The root flag and components after expanding each of `cs` in turn.
pub open spec fn expand_components(
    absolute: bool,
    cs: Seq<Seq<char>>,
    env: Seq<(Seq<char>, Seq<char>)>,
) -> (bool, Seq<Seq<char>>)
    decreases cs.len(),
{
    if cs.len() == 0 {
        (absolute, Seq::empty())
    } else {
        let st = expand_components(absolute, cs.drop_last(), env);
        let c = cs.last();
        if is_reference(c) {
            match lookup(env, c.drop_first()) {
                Some(v) => splice(st, v),
                None => st,
            }
        } else {
            (st.0, st.1.push(c))
        }
    }
}

/// A path with every `$NAME` component replaced by the value of `NAME`
/// (or dropped when `NAME` is unset); a path without `$` is left as it is.
pub open spec fn expand_path(p: Seq<char>, env: Seq<(Seq<char>, Seq<char>)>) -> Seq<char> {
    if !p.contains('$') {
        p
    } else {
        let st = expand_components(is_absolute(p), components(p), env);
        render(st.0, st.1)
    }
}

/// No component of `p` refers to a variable.
pub open spec fn has_no_references(p: Seq<char>) -> bool {
    forall|k: int| 0 <= k < components(p).len() ==> !is_reference(#[trigger] components(p)[k])
}


pub open spec fn strings_view(v: Seq<String>) -> Seq<Seq<char>> {
    v.map_values(|s: String| s@)
}

/// Whether `p` holds a `$` anywhere.
pub fn has_dollar(p: &str) -> (r: bool)
    ensures
        r == p@.contains('$'),
{
    let n = p.unicode_len();
    let mut i: usize = 0;
    while i < n
        invariant
            n == p@.len(),
            i <= n,
            forall|k: int| 0 <= k < i ==> p@[k] != '$',
        decreases n - i,
    {
        if p.get_char(i) == '$' {
            return true;
        }
        i += 1;
    }
    false
}

/// Splits a path into its components.
pub fn split_components(p: &str) -> (r: Vec<String>)
    ensures
        strings_view(r@) == components(p@),
{
    let n = p.unicode_len();
    let mut out: Vec<String> = Vec::new();
    let mut start: usize = 0;
    let mut i: usize = 0;
    proof {
        assert(p@.subrange(0, 0) =~= Seq::<char>::empty());
    }
    while i < n
        invariant
            n == p@.len(),
            start <= i <= n,
            strings_view(out@) == closed_segments(p@.subrange(0, i as int)),
            trailing(p@.subrange(0, i as int)) == p@.subrange(start as int, i as int),
        decreases n - i,
    {
        let c = p.get_char(i);
        let ghost q = p@.subrange(0, i + 1);
        proof {
            assert(q.drop_last() =~= p@.subrange(0, i as int));
            assert(q.last() == c);
        }
        if c == '/' {
            if i > start {
                let seg = p.substring_char(start, i).to_owned();
                out.push(seg);
                proof {
                    assert(strings_view(out@) =~= closed_segments(q));
                }
            }
            start = i + 1;
            proof {
                assert(p@.subrange(start as int, i + 1) =~= Seq::<char>::empty());
            }
        } else {
            proof {
                assert(p@.subrange(start as int, i + 1) =~= p@.subrange(start as int, i as int).push(c));
            }
        }
        i += 1;
    }
    proof {
        assert(p@.subrange(0, n as int) =~= p@);
    }
    if n > start {
        let seg = p.substring_char(start, n).to_owned();
        out.push(seg);
        proof {
            assert(strings_view(out@) =~= components(p@));
        }
    }
    out
}

/// Writes a path from a root flag and its components.
pub fn render_path(absolute: bool, cs: &Vec<String>) -> (r: String)
    ensures
        r@ == render(absolute, strings_view(cs@)),
{
    let mut r = String::new();
    proof {
        reveal_strlit("/");
        assert("/"@ =~= seq!['/']);
    }
    if absolute {
        r.append("/");
    }
    let ghost lead = r@;
    let mut k: usize = 0;
    while k < cs.len()
        invariant
            k <= cs@.len(),
            lead == (if absolute { seq!['/'] } else { Seq::<char>::empty() }),
            r@ == lead + join(strings_view(cs@).subrange(0, k as int)),
        decreases cs@.len() - k,
    {
        let ghost prev = strings_view(cs@).subrange(0, k as int);
        let ghost next = strings_view(cs@).subrange(0, k + 1);
        proof {
            assert(next.drop_last() =~= prev);
            reveal_strlit("/");
            assert("/"@ =~= seq!['/']);
        }
        if k > 0 {
            r.append("/");
        }
        let ghost r1 = r@;
        r.append(cs[k].as_str());
        proof {
            if k == 0 {
                assert(join(prev) =~= Seq::<char>::empty());
                assert(r@ =~= lead + join(next));
            } else {
                assert(next.len() >= 2);
                assert(next.last() == cs@[k as int]@);
                assert(join(next) == join(prev).push('/') + next.last());
                assert(r1 =~= lead + join(prev).push('/'));
                assert(r@ == r1 + cs@[k as int]@);
                assert(r@ =~= lead + join(next));
            }
        }
        k += 1;
    }
    proof {
        assert(strings_view(cs@).subrange(0, cs@.len() as int) =~= strings_view(cs@));
        assert(render(absolute, strings_view(cs@)) =~= lead + join(strings_view(cs@)));
    }
    r
}

/// Replaces every `$NAME` component of `path` with the value of `NAME` in `env`;
/// a component naming an unset variable is dropped.
pub fn replace_envs_in_path(path: String, env: &Environment) -> (r: String)
    ensures
        r@ == expand_path(path@, env@),
{
    if !has_dollar(path.as_str()) {
        return path;
    }
    let cs = split_components(path.as_str());
    let mut absolute = path.unicode_len() > 0 && path.as_str().get_char(0) == '/';
    let mut out: Vec<String> = Vec::new();
    let mut k: usize = 0;
    while k < cs.len()
        invariant
            k <= cs@.len(),
            strings_view(cs@) == components(path@),
            (absolute, strings_view(out@)) == expand_components(
                is_absolute(path@),
                strings_view(cs@).subrange(0, k as int),
                env@,
            ),
        decreases cs@.len() - k,
    {
        let ghost prev = strings_view(cs@).subrange(0, k as int);
        let ghost next = strings_view(cs@).subrange(0, k + 1);
        proof {
            assert(next.drop_last() =~= prev);
            assert(next.last() == cs@[k as int]@);
        }
        let c = cs[k].as_str();
        let len = c.unicode_len();
        if len > 0 && c.get_char(0) == '$' {
            let name = c.substring_char(1, len);
            proof {
                assert(name@ =~= c@.drop_first());
            }
            match env.get(name) {
                Some(v) => {
                    let parts = split_components(v.as_str());
                    if v.unicode_len() > 0 && v.as_str().get_char(0) == '/' {
                        absolute = true;
                        out = parts;
                    } else {
                        let ghost before = strings_view(out@);
                        let mut j: usize = 0;
                        while j < parts.len()
                            invariant
                                j <= parts@.len(),
                                strings_view(out@) == before + strings_view(parts@).subrange(0, j as int),
                            decreases parts@.len() - j,
                        {
                            let ghost old_out = out@;
                            let part = parts[j].clone();
                            out.push(part);
                            proof {
                                assert(strings_view(out@) =~= strings_view(old_out).push(part@));
                                assert(strings_view(parts@).subrange(0, j + 1) =~= strings_view(parts@).subrange(0, j as int).push(parts@[j as int]@));
                                assert(strings_view(out@) =~= before + strings_view(parts@).subrange(0, j + 1));
                            }
                            j += 1;
                        }
                        proof {
                            assert(strings_view(parts@).subrange(0, parts@.len() as int) =~= strings_view(parts@));
                        }
                    }
                },
                None => {},
            }
        } else {
            out.push(cs[k].clone());
            proof {
                assert(strings_view(out@) =~= expand_components(is_absolute(path@), prev, env@).1.push(cs@[k as int]@));
            }
        }
        k += 1;
    }
    proof {
        assert(strings_view(cs@).subrange(0, cs@.len() as int) =~= strings_view(cs@));
    }
    render_path(absolute, &out)
}


/// The trailing segment holds no separator.
pub proof fn lemma_trailing_plain(p: Seq<char>)
    ensures
        !trailing(p).contains('/'),
    decreases p.len(),
{
    if p.len() > 0 && p.last() != '/' {
        lemma_trailing_plain(p.drop_last());
        let t = trailing(p.drop_last());
        assert(forall|i: int| 0 <= i < t.len() ==> #[trigger] t.push(p.last())[i] == t[i]);
    }
}

/// Every component of a path is well formed.
pub proof fn lemma_components_wf(p: Seq<char>)
    ensures
        forall|k: int| 0 <= k < components(p).len() ==> is_component(#[trigger] components(p)[k]),
{
    lemma_closed_segments_wf(p);
    lemma_trailing_plain(p);
}

proof fn lemma_closed_segments_wf(p: Seq<char>)
    ensures
        forall|k: int| 0 <= k < closed_segments(p).len() ==> is_component(#[trigger] closed_segments(p)[k]),
    decreases p.len(),
{
    if p.len() > 0 {
        let prev = closed_segments(p.drop_last());
        let t = trailing(p.drop_last());
        lemma_closed_segments_wf(p.drop_last());
        lemma_trailing_plain(p.drop_last());
        assert(forall|k: int| 0 <= k < prev.len() ==> #[trigger] prev.push(t)[k] == prev[k]);
    }
}

/// Appending text without a separator extends the trailing segment only.
proof fn lemma_append_plain(x: Seq<char>, c: Seq<char>)
    requires
        !c.contains('/'),
    ensures
        trailing(x + c) == trailing(x) + c,
        closed_segments(x + c) == closed_segments(x),
    decreases c.len(),
{
    if c.len() == 0 {
        assert(x + c =~= x);
        assert(trailing(x) + c =~= trailing(x));
    } else {
        let c0 = c.drop_last();
        assert(!c0.contains('/')) by {
            assert(forall|i: int| 0 <= i < c0.len() ==> #[trigger] c0[i] == c[i]);
        }
        lemma_append_plain(x, c0);
        assert((x + c).drop_last() =~= x + c0);
        assert((x + c).last() == c.last());
        assert(c.last() != '/') by {
            assert(c[c.len() - 1] == c.last());
        }
        assert((trailing(x) + c0).push(c.last()) =~= trailing(x) + c);
    }
}

/// A separator closes the trailing segment.
proof fn lemma_append_slash(x: Seq<char>)
    ensures
        trailing(x.push('/')) == Seq::<char>::empty(),
        closed_segments(x.push('/')) == components(x),
{
    assert(x.push('/').drop_last() =~= x);
}

/// Joining well-formed components and splitting again gives them back.
pub proof fn lemma_components_join(cs: Seq<Seq<char>>)
    requires
        forall|k: int| 0 <= k < cs.len() ==> is_component(#[trigger] cs[k]),
    ensures
        components(join(cs)) == cs,
        cs.len() > 0 ==> join(cs).len() > 0 && join(cs)[0] == cs[0][0],
    decreases cs.len(),
{
    if cs.len() == 0 {
        assert(components(Seq::<char>::empty()) =~= cs);
    } else if cs.len() == 1 {
        lemma_append_plain(Seq::<char>::empty(), cs[0]);
        assert(Seq::<char>::empty() + cs[0] =~= cs[0]);
        assert(components(cs[0]) =~= cs);
    } else {
        let init = cs.drop_last();
        lemma_components_join(init);
        let j = join(init);
        lemma_append_slash(j);
        lemma_append_plain(j.push('/'), cs.last());
        assert(Seq::<char>::empty() + cs.last() =~= cs.last());
        assert(components(join(cs)) =~= cs);
        assert(join(cs)[0] == j[0]);
    }
}

/// A leading separator does not change the components.
pub proof fn lemma_components_rooted(y: Seq<char>)
    ensures
        components(seq!['/'] + y) == components(y),
    decreases y.len(),
{
    lemma_rooted_parts(y);
}

proof fn lemma_rooted_parts(y: Seq<char>)
    ensures
        trailing(seq!['/'] + y) == trailing(y),
        closed_segments(seq!['/'] + y) == closed_segments(y),
    decreases y.len(),
{
    if y.len() == 0 {
        let e = Seq::<char>::empty();
        assert(seq!['/'] + y =~= seq!['/']);
        assert(seq!['/'].drop_last() =~= e);
        assert(trailing(e) == e);
        assert(closed_segments(e) == Seq::<Seq<char>>::empty());
        assert(closed_segments(seq!['/']) == closed_segments(e));
    } else {
        lemma_rooted_parts(y.drop_last());
        assert((seq!['/'] + y).drop_last() =~= seq!['/'] + y.drop_last());
        assert((seq!['/'] + y).last() == y.last());
    }
}

/// Expansion of well-formed components stays well formed.
proof fn lemma_expand_components_wf(absolute: bool, cs: Seq<Seq<char>>, env: Seq<(Seq<char>, Seq<char>)>)
    requires
        forall|k: int| 0 <= k < cs.len() ==> is_component(#[trigger] cs[k]),
    ensures
        forall|k: int|
            0 <= k < expand_components(absolute, cs, env).1.len() ==> is_component(
                #[trigger] expand_components(absolute, cs, env).1[k],
            ),
    decreases cs.len(),
{
    if cs.len() > 0 {
        let init = cs.drop_last();
        assert(forall|k: int| 0 <= k < init.len() ==> #[trigger] init[k] == cs[k]);
        lemma_expand_components_wf(absolute, init, env);
        let c = cs.last();
        let st = expand_components(absolute, init, env);
        assert(is_component(cs[cs.len() - 1]));
        if is_reference(c) {
            match lookup(env, c.drop_first()) {
                Some(v) => {
                    lemma_components_wf(v);
                    let cv = components(v);
                    assert(forall|k: int| 0 <= k < st.1.len() ==> #[trigger] (st.1 + cv)[k] == st.1[k]);
                    assert(forall|k: int| st.1.len() <= k < st.1.len() + cv.len() ==> #[trigger] (st.1 + cv)[k] == cv[k - st.1.len()]);
                },
                None => {},
            }
        } else {
            assert(forall|k: int| 0 <= k < st.1.len() ==> #[trigger] st.1.push(c)[k] == st.1[k]);
        }
    }
}

/// Components without references expand to themselves.
proof fn lemma_expand_plain(absolute: bool, cs: Seq<Seq<char>>, env: Seq<(Seq<char>, Seq<char>)>)
    requires
        forall|k: int| 0 <= k < cs.len() ==> !is_reference(#[trigger] cs[k]),
    ensures
        expand_components(absolute, cs, env) == (absolute, cs),
    decreases cs.len(),
{
    if cs.len() > 0 {
        let init = cs.drop_last();
        assert(forall|k: int| 0 <= k < init.len() ==> #[trigger] init[k] == cs[k]);
        lemma_expand_plain(absolute, init, env);
        assert(!is_reference(cs[cs.len() - 1]));
        assert(init.push(cs.last()) =~= cs);
    }
}

/// Expanding twice is expanding once, when the first pass leaves no
/// component that refers to a variable.
pub proof fn lemma_expand_idempotent(p: Seq<char>, env: Seq<(Seq<char>, Seq<char>)>)
    requires
        has_no_references(expand_path(p, env)),
    ensures
        expand_path(expand_path(p, env), env) == expand_path(p, env),
{
    let q = expand_path(p, env);
    if p.contains('$') && q.contains('$') {
        let st = expand_components(is_absolute(p), components(p), env);
        lemma_components_wf(p);
        lemma_expand_components_wf(is_absolute(p), components(p), env);
        lemma_components_join(st.1);
        if st.0 {
            lemma_components_rooted(join(st.1));
            assert(q[0] == '/');
        } else if st.1.len() > 0 {
            assert(is_component(st.1[0]));
            assert(st.1[0].contains(st.1[0][0]));
        }
        assert(components(q) == st.1);
        assert(is_absolute(q) == st.0);
        lemma_expand_plain(st.0, st.1, env);
    }
}

} // verus!
