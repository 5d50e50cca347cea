use crate::errors::ChenvError;
use crate::interpol::err_matches;
use crate::interpol::interp_from;
use crate::interpol::Env;
use crate::interpol::InterpolableString;
use crate::resource::resource_deps;
use crate::resource::resource_vars_ok;
use crate::resource::Resource;
use crate::resource::ResourceModel;
use crate::resolver::deps_closed;
use crate::resolver::deps_respected;
use crate::resolver::lemma_stuck_set_has_cycle;
use crate::resolver::distinct;
use crate::resolver::is_cycle;
use crate::resolver::order_dependencies_gen;
use crate::resolver::table_deps;
use crate::smap::merge_maps;
use crate::smap::StrMap;
use crate::substrate::Substrate;
use crate::value::ValModel;
use crate::value::Value;
use vstd::prelude::*;

verus! {

/// The ordered list of search-path segment templates.
pub struct PathEnv(pub Vec<InterpolableString>);

impl View for PathEnv {
    type V = Seq<Seq<char>>;

    open spec fn view(&self) -> Seq<Seq<char>> {
        self.0.deep_view()
    }
}

impl PathEnv {
    pub fn is_empty(&self) -> (r: bool)
        ensures
            r == (self@.len() == 0),
    {
        self.0.len() == 0
    }
}

/// Two maps agree wherever their domains overlap.
pub open spec fn maps_agree<T>(m1: Map<Seq<char>, T>, m2: Map<Seq<char>, T>) -> bool {
    forall|k: Seq<char>|
        m1.contains_key(k) && #[trigger] m2.contains_key(k) ==> m1[k] == m2[k]
}

/// `m` is the key-wise union of `m1` and `m2`.
pub open spec fn merged_maps<T>(
    m1: Map<Seq<char>, T>,
    m2: Map<Seq<char>, T>,
    m: Map<Seq<char>, T>,
) -> bool {
    &&& m.dom() == m1.dom() + m2.dom()
    &&& forall|k: Seq<char>| #[trigger] m2.contains_key(k) ==> m[k] == m2[k]
    &&& forall|k: Seq<char>|
        #[trigger] m1.contains_key(k) && !m2.contains_key(k) ==> m[k] == m1[k]
}

/// A declarative bundle: named resources, env-var templates, and ordered
/// path-segment templates.
pub struct Environment {
    pub resources: Option<StrMap<Resource>>,
    pub env: Option<StrMap<InterpolableString>>,
    pub path: PathEnv,
}

impl Environment {
    pub open spec fn wf(&self) -> bool {
        &&& match self.resources {
            Some(m) => m.wf(),
            None => true,
        }
        &&& match self.env {
            Some(m) => m.wf(),
            None => true,
        }
    }

    /// Interpolates every declared env-var template against the resolution
    /// context; any failing template aborts the whole evaluation.
    pub fn get_env(&self, ctx: &Env) -> (r: Result<StrMap<String>, ChenvError>)
        requires
            self.wf(),
            ctx.wf(),
        ensures
            match r {
                Ok(m) => {
                    &&& m.wf()
                    &&& match self.env {
                        None => m@.dom() == Set::<Seq<char>>::empty(),
                        Some(em) => m@.dom() == em@.dom() && forall|k: Seq<char>|
                            #[trigger] em@.contains_key(k) ==> interp_from(em@[k], 0, ctx@)
                                == Ok::<Seq<char>, crate::interpol::InterpErr>(m@[k]),
                    }
                },
                Err(e) => self.env matches Some(em) && exists|k: Seq<char>|
                    #[trigger] em@.contains_key(k) && (interp_from(em@[k], 0, ctx@) matches Err(ie)
                        && err_matches(e, ie)),
            },
    {
        let mut result: StrMap<String> = StrMap::new();
        let em = match &self.env {
            None => {
                return Ok(result);
            },
            Some(em) => em,
        };
        let n = em.len();
        let mut i: usize = 0;
        proof {
            em.lemma_keys();
        }
        while i < n
            invariant
                i <= n,
                self.env == Some(*em),
                n == em.keys().len(),
                em.wf(),
                ctx.wf(),
                result.wf(),
                forall|a: int, b: int|
                    0 <= a < b < em.keys().len() ==> em.keys()[a] != em.keys()[b],
                forall|k: Seq<char>| em@.contains_key(k) <==> em.keys().contains(k),
                forall|a: int|
                    0 <= a < em.keys().len() ==> em@.contains_key(#[trigger] em.keys()[a]),
                result@.dom() == em.keys().subrange(0, i as int).to_set(),
                forall|a: int|
                    0 <= a < i ==> interp_from(em@[#[trigger] em.keys()[a]], 0, ctx@)
                        == Ok::<Seq<char>, crate::interpol::InterpErr>(result@[em.keys()[a]]),
            decreases n - i,
        {
            let (k, template) = em.entry_at(i);
            let ghost kk = k@;
            match template.interpolate(ctx) {
                Ok(v) => {
                    let key_copy = k.clone();
                    result.insert(key_copy, v);
                    proof {
                        let ks = em.keys();
                        assert(ks.subrange(0, i + 1 as int) =~= ks.subrange(0, i as int).push(kk));
                        let s1 = ks.subrange(0, i + 1 as int);
                        let s0 = ks.subrange(0, i as int);
                        assert forall|x: Seq<char>| #[trigger] s1.to_set().contains(x) implies s0.to_set().insert(
                            kk,
                        ).contains(x) by {
                            let a = choose|a: int| 0 <= a < s1.len() && s1[a] == x;
                            if a < i {
                                assert(s0[a] == x);
                                assert(s0.contains(x));
                            } else {
                                assert(x == kk);
                            }
                        }
                        assert forall|x: Seq<char>| #[trigger] s0.to_set().insert(kk).contains(x) implies s1.to_set().contains(
                            x,
                        ) by {
                            if x == kk {
                                assert(s1[i as int] == x);
                                assert(s1.contains(x));
                            } else {
                                let a = choose|a: int| 0 <= a < s0.len() && s0[a] == x;
                                assert(s1[a] == x);
                                assert(s1.contains(x));
                            }
                        }
                        assert(s1.to_set() =~= s0.to_set().insert(kk));
                        assert(result@.dom() =~= s1.to_set());
                    }
                },
                Err(e) => {
                    proof {
                        assert(em@.contains_key(kk) && (interp_from(em@[kk], 0, ctx@) matches Err(
                            ie,
                        ) && err_matches(e, ie)));
                    }
                    return Err(e);
                },
            }
            i += 1;
        }
        proof {
            assert(em.keys().subrange(0, n as int) =~= em.keys());
            assert(result@.dom() =~= em@.dom()) by {
                assert(em.keys().to_set() =~= em@.dom());
            }
            assert forall|k: Seq<char>| #[trigger] em@.contains_key(k) implies interp_from(
                em@[k],
                0,
                ctx@,
            ) == Ok::<Seq<char>, crate::interpol::InterpErr>(result@[k]) by {
                let a = choose|a: int| 0 <= a < em.keys().len() && em.keys()[a] == k;
            }
        }
        Ok(result)
    }

    /// Interpolates every path-segment template, in declaration order.
    pub fn get_path(&self, ctx: &Env) -> (r: Result<Vec<String>, ChenvError>)
        requires
            self.wf(),
            ctx.wf(),
        ensures
            match r {
                Ok(v) => v@.len() == self.path@.len() && forall|a: int|
                    0 <= a < self.path@.len() ==> interp_from(#[trigger] self.path@[a], 0, ctx@)
                        == Ok::<Seq<char>, crate::interpol::InterpErr>(v.deep_view()[a]),
                Err(e) => exists|a: int|
                    0 <= a < self.path@.len() && (#[trigger] interp_from(self.path@[a], 0, ctx@)
                        matches Err(ie) && err_matches(e, ie)),
            },
    {
        let n = self.path.0.len();
        let mut result: Vec<String> = Vec::new();
        let mut i: usize = 0;
        while i < n
            invariant
                i <= n,
                n == self.path@.len(),
                ctx.wf(),
                result@.len() == i,
                forall|a: int|
                    0 <= a < i ==> interp_from(#[trigger] self.path@[a], 0, ctx@)
                        == Ok::<Seq<char>, crate::interpol::InterpErr>(result.deep_view()[a]),
            decreases n - i,
        {
            proof {
                assert(self.path@[i as int] == self.path.0@[i as int]@);
            }
            match self.path.0[i].interpolate(ctx) {
                Ok(v) => {
                    result.push(v);
                    proof {
                        let dv = result.deep_view();
                        assert(forall|a: int| 0 <= a < i ==> dv[a] == dv.drop_last()[a]);
                    }
                },
                Err(e) => {
                    proof {
                        assert(interp_from(self.path@[i as int], 0, ctx@) matches Err(ie)
                            && err_matches(e, ie));
                    }
                    return Err(e);
                },
            }
            i += 1;
        }
        Ok(result)
    }

    /// Unions two bundles key-wise: a key on both sides must carry equal
    /// values on both, or the merge fails rather than silently overriding;
    /// path-segment lists are concatenated without deduplication.
    pub fn merge(self, other: Environment) -> (r: Result<Environment, ChenvError>)
        requires
            self.wf(),
            other.wf(),
        ensures
            match r {
                Ok(m) => {
                    &&& m.wf()
                    &&& m.path@ == self.path@ + other.path@
                    &&& match (self.env, other.env) {
                        (None, None) => m.env is None,
                        (Some(e1), None) => m.env matches Some(e) && e@ == e1@,
                        (None, Some(e2)) => m.env matches Some(e) && e@ == e2@,
                        (Some(e1), Some(e2)) => m.env matches Some(e) && merged_maps(
                            e1@,
                            e2@,
                            e@,
                        ) && maps_agree(e1@, e2@),
                    }
                    &&& match (self.resources, other.resources) {
                        (None, None) => m.resources is None,
                        (Some(r1), None) => m.resources matches Some(x) && x@ == r1@,
                        (None, Some(r2)) => m.resources matches Some(x) && x@ == r2@,
                        (Some(r1), Some(r2)) => m.resources matches Some(x) && merged_maps(
                            r1@,
                            r2@,
                            x@,
                        ) && maps_agree(r1@, r2@),
                    }
                },
                Err(e) => {
                    &&& e matches ChenvError::Config(_)
                    &&& {
                        ||| (self.env matches Some(e1) && other.env matches Some(e2)
                            && !maps_agree(e1@, e2@))
                        ||| (self.resources matches Some(r1) && other.resources matches Some(r2)
                            && !maps_agree(r1@, r2@))
                    }
                },
            },
    {
        let env = match (self.env, other.env) {
            (None, None) => None,
            (None, Some(e2)) => Some(e2),
            (Some(e1), None) => Some(e1),
            (Some(e1), Some(e2)) => match merge_maps(e1, &e2) {
                Ok(m) => Some(m),
                Err(e) => {
                    return Err(e);
                },
            },
        };
        let resources = match (self.resources, other.resources) {
            (None, None) => None,
            (None, Some(r2)) => Some(r2),
            (Some(r1), None) => Some(r1),
            (Some(r1), Some(r2)) => match merge_maps(r1, &r2) {
                Ok(m) => Some(m),
                Err(e) => {
                    return Err(e);
                },
            },
        };
        let mut path_segments = self.path.0;
        let mut other_segments = other.path.0;
        let ghost left = path_segments.deep_view();
        let ghost right = other_segments.deep_view();
        path_segments.append(&mut other_segments);
        proof {
            assert(path_segments.deep_view() =~= left + right);
        }
        Ok(Environment { resources, env, path: PathEnv(path_segments) })
    }
}

/// The dependency table a resource map denotes: each name in declaration
/// order, with the names its URL template references.
pub open spec fn resource_table(rm: StrMap<Resource>) -> Seq<(Seq<char>, Seq<Seq<char>>)> {
    Seq::new(
        rm.keys().len(),
        |i: int|
            if 0 <= i < rm.keys().len() {
                (rm.keys()[i], resource_deps(rm@[rm.keys()[i]]))
            } else {
                (Seq::empty(), Seq::empty())
            },
    )
}

/// Every declared resource is of the implemented `File` kind.
pub open spec fn all_file_resources(m: Map<Seq<char>, ResourceModel>) -> bool {
    forall|k: Seq<char>|
        #[trigger] m.contains_key(k) ==> m[k] matches ResourceModel::File { .. }
}

/// Lifts a stuck set to a cycle when the dependency graph never leaves the
/// declared names.
proof fn lemma_stuck_lift(
    rt: Seq<(Seq<char>, Seq<Seq<char>>)>,
    keys: Seq<Seq<char>>,
    m: Map<Seq<char>, crate::resource::ResourceModel>,
    rem: Seq<Seq<char>>,
)
    requires
        rem.len() > 0,
        forall|x: Seq<char>| #[trigger] rem.contains(x) ==> m.contains_key(x),
        forall|x: Seq<char>|
            #[trigger] rem.contains(x) ==> exists|d: Seq<char>|
                #[trigger] table_deps(rt, x).contains(d) && (rem.contains(d) || !m.contains_key(
                    d,
                )),
        forall|k: Seq<char>| m.contains_key(k) <==> keys.contains(k),
        deps_closed(rt, keys),
    ensures
        exists|c: Seq<Seq<char>>| is_cycle(rt, keys, c),
{
    assert forall|x: Seq<char>| #[trigger] rem.contains(x) implies exists|d: Seq<char>|
        #[trigger] table_deps(rt, x).contains(d) && rem.contains(d) by {
        let d = choose|d: Seq<char>|
            #[trigger] table_deps(rt, x).contains(d) && (rem.contains(d) || !m.contains_key(d));
        assert(m.contains_key(x));
        assert(keys.contains(x));
        assert(keys.contains(d));
        assert(m.contains_key(d));
        assert(rem.contains(d));
    }
    assert forall|x: Seq<char>| #[trigger] rem.contains(x) implies keys.contains(x) by {
        assert(m.contains_key(x));
    }
    lemma_stuck_set_has_cycle(rt, keys, rem);
}

/// Orders the resource names so that every resource comes after the resources
/// its URL template references. Fails on a reference cycle, and on a template
/// with an unterminated placeholder.
#[verifier::rlimit(30)]
pub fn order_dependences(resources: &StrMap<Resource>) -> (r: Result<Vec<String>, ChenvError>)
    requires
        resources.wf(),
        all_file_resources(resources@),
    ensures
        match r {
            Ok(out) => {
                &&& distinct(out.deep_view())
                &&& out.deep_view().len() == resources.keys().len()
                &&& forall|x: Seq<char>|
                    out.deep_view().contains(x) <==> resources@.contains_key(x)
                &&& deps_respected(resource_table(*resources), out.deep_view())
            },
            Err(e) => match e {
                ChenvError::CircularDependency(rem) => {
                    &&& rem.deep_view().len() > 0
                    &&& distinct(rem.deep_view())
                    &&& forall|x: Seq<char>|
                        #[trigger] rem.deep_view().contains(x) ==> resources@.contains_key(x)
                    &&& forall|x: Seq<char>|
                        #[trigger] rem.deep_view().contains(x) ==> exists|d: Seq<char>|
                            #[trigger] table_deps(resource_table(*resources), x).contains(d) && (
                            rem.deep_view().contains(d) || !resources@.contains_key(d))
                },
                ChenvError::UnterminatedPlaceholder => true,
                _ => false,
            },
        },
        forall|c: Seq<Seq<char>>|
            is_cycle(resource_table(*resources), resources.keys(), c) ==> r is Err,
        (deps_closed(resource_table(*resources), resources.keys()) && (forall|c: Seq<Seq<char>>|
            !is_cycle(resource_table(*resources), resources.keys(), c)) && (forall|k: Seq<char>|
            #[trigger] resources@.contains_key(k) ==> resource_vars_ok(resources@[k]))) ==> (r
            is Ok),
        r matches Ok(out) ==> out.deep_view() == crate::resolver::greedy_order(
            resource_table(*resources),
            resources.keys(),
        ),
{
    let n = resources.len();
    let mut values: Vec<String> = Vec::new();
    let mut table: Vec<(String, Vec<String>)> = Vec::new();
    let mut i: usize = 0;
    proof {
        resources.lemma_keys();
    }
    while i < n
        invariant
            i <= n,
            n == resources.keys().len(),
            resources.wf(),
            all_file_resources(resources@),
            forall|a: int|
                0 <= a < resources.keys().len() ==> resources@.contains_key(
                    #[trigger] resources.keys()[a],
                ),
            values.deep_view() =~= resources.keys().subrange(0, i as int),
            table.deep_view() =~= resource_table(*resources).subrange(0, i as int),
        decreases n - i,
    {
        let (k, rsrc) = resources.entry_at(i);
        let deps: Vec<String> = match rsrc {
            Resource::File { repo_location: _, file } => {
                match file.get_dependances() {
                    Ok(ds) => ds,
                    Err(e) => {
                        proof {
                            assert(resources@.contains_key(k@));
                            assert(resources@[k@] == rsrc@);
                            assert(!resource_vars_ok(resources@[k@]));
                        }
                        return Err(e);
                    },
                }
            },
            _ => {
                proof {
                    assert(resources@[k@] matches ResourceModel::File { .. });
                    assert(false);
                }
                Vec::new()
            },
        };
        let ghost vbefore = values.deep_view();
        let ghost tbefore = table.deep_view();
        let ghost dmodel = deps.deep_view();
        values.push(k.clone());
        table.push((k.clone(), deps));
        proof {
            let ks = resources.keys();
            assert(values.deep_view() =~= vbefore.push(k@));
            assert(table.deep_view() =~= tbefore.push((k@, dmodel)));
            assert(ks.subrange(0, i + 1 as int) =~= ks.subrange(0, i as int).push(ks[i as int]));
            assert(values.deep_view() =~= ks.subrange(0, i + 1 as int));
            assert(resource_table(*resources).subrange(0, i + 1 as int) =~= resource_table(
                *resources,
            ).subrange(0, i as int).push((ks[i as int], resource_deps(resources@[ks[i as int]]))));
            assert(table.deep_view() =~= resource_table(*resources).subrange(0, i + 1 as int));
        }
        i += 1;
    }
    proof {
        assert(values.deep_view() =~= resources.keys());
        assert(table.deep_view() =~= resource_table(*resources));
    }
    match order_dependencies_gen(&values, &table) {
        Ok(out) => {
            proof {
                assert forall|x: Seq<char>|
                    out.deep_view().contains(x) <==> resources@.contains_key(x) by {}
                assert(table.deep_view() == resource_table(*resources));
                assert(out.deep_view() == crate::resolver::greedy_order(
                    resource_table(*resources),
                    resources.keys(),
                ));
            }
            Ok(out)
        },
        Err(e) => {
            proof {
                match &e {
                    ChenvError::CircularDependency(rem) => {
                        assert(table.deep_view() == resource_table(*resources));
                        assert forall|x: Seq<char>|
                            #[trigger] rem.deep_view().contains(x) implies resources@.contains_key(
                            x,
                        ) by {
                            assert(values.deep_view().contains(x));
                        }
                        assert forall|x: Seq<char>|
                            #[trigger] rem.deep_view().contains(x) implies exists|d: Seq<char>|
                                #[trigger] table_deps(resource_table(*resources), x).contains(d)
                                    && (rem.deep_view().contains(d) || !resources@.contains_key(
                                    d,
                                )) by {
                            let d = choose|d: Seq<char>|
                                #[trigger] table_deps(table.deep_view(), x).contains(d) && (
                                rem.deep_view().contains(d) || !values.deep_view().contains(d));
                            assert(table_deps(resource_table(*resources), x).contains(d));
                            if !values.deep_view().contains(d) {
                                assert(!resources@.contains_key(d));
                            }
                        }
                        if deps_closed(resource_table(*resources), resources.keys()) {
                            lemma_stuck_lift(
                                resource_table(*resources),
                                resources.keys(),
                                resources@,
                                rem.deep_view(),
                            );
                        }
                    },
                    _ => {},
                }
            }
            Err(e)
        },
    }
}

/// The structured value the reserved `host` entry exposes: an object with one
/// `env` property holding the process environment as a string map.
pub open spec fn host_substrate_model(vars: Seq<(Seq<char>, Seq<char>)>) -> ValModel {
    ValModel::Obj(
        seq![
            (
                seq!['e', 'n', 'v'],
                ValModel::Obj(
                    Seq::new(
                        vars.len(),
                        |i: int|
                            if 0 <= i < vars.len() {
                                (vars[i].0, ValModel::Str(vars[i].1))
                            } else {
                                (Seq::empty(), ValModel::Null)
                            },
                    ),
                ),
            ),
        ],
    )
}

/// Wraps the process environment (handed in as plain pairs) as the reserved
/// `host` substrate.
pub fn host_substrate(vars: Vec<(String, String)>) -> (r: Substrate)
    ensures
        r@ == host_substrate_model(vars.deep_view()),
{
    let n = vars.len();
    let ghost vmodel = vars.deep_view();
    let mut pairs: Vec<(String, Value)> = Vec::new();
    let mut i: usize = 0;
    while i < n
        invariant
            i <= n,
            n == vars@.len(),
            vmodel == vars.deep_view(),
            pairs@.len() == i,
            forall|a: int|
                0 <= a < i ==> (#[trigger] pairs@[a]).0@ == vmodel[a].0 && crate::value::val_model(
                    pairs@[a].1,
                ) == ValModel::Str(vmodel[a].1),
        decreases n - i,
    {
        let (k, v) = (&vars[i].0, &vars[i].1);
        pairs.push((k.clone(), Value::Str(v.clone())));
        i += 1;
    }
    let ghost pairs_model = pairs@;
    let env_value = Value::Obj(pairs);
    let ghost ein = Seq::new(
        vmodel.len(),
        |a: int|
            if 0 <= a < vmodel.len() {
                (vmodel[a].0, ValModel::Str(vmodel[a].1))
            } else {
                (Seq::empty(), ValModel::Null)
            },
    );
    proof {
        match crate::value::val_model(env_value) {
            ValModel::Obj(x) => {
                assert(x =~= ein);
            },
            _ => {
                assert(false);
            },
        }
        assert(crate::value::val_model(env_value) == ValModel::Obj(ein));
    }
    let ghost evm = crate::value::val_model(env_value);
    let mut outer: Vec<(String, Value)> = Vec::new();
    proof {
        reveal_strlit("env");
        assert("env"@ =~= seq!['e', 'n', 'v']);
    }
    outer.push((String::from_str("env"), env_value));
    let value = Value::Obj(outer);
    let r = Substrate::from_value(value);
    proof {
        match r@ {
            ValModel::Obj(po) => {
                assert(po.len() == 1);
                assert(po[0].0 == seq!['e', 'n', 'v']);
                assert(po[0].1 == evm);
                assert(po =~= host_substrate_model(vars.deep_view())->Obj_0);
            },
            _ => {
                assert(false);
            },
        }
        assert(r@ == host_substrate_model(vars.deep_view()));
    }
    r
}

/// A resolution context holding only the reserved `host` entry.
pub fn seeded_env(host_vars: Vec<(String, String)>) -> (r: Env)
    ensures
        r.wf(),
        r@ == Map::<Seq<char>, ValModel>::empty().insert(
            seq!['h', 'o', 's', 't'],
            host_substrate_model(host_vars.deep_view()),
        ),
{
    let mut ctx = Env::new();
    let sub = host_substrate(host_vars);
    proof {
        reveal_strlit("host");
        assert("host"@ =~= seq!['h', 'o', 's', 't']);
    }
    ctx.insert(String::from_str("host"), sub);
    ctx
}

/// A bundle extended with the command it builds with.
pub struct BuildEnvironment {
    pub cmd: String,
    pub env: Environment,
}

/// A whole configuration: the interactive shell bundle and the build bundle.
pub struct Conf {
    pub shell: Option<Environment>,
    pub builder: Option<BuildEnvironment>,
}

} // verus!
