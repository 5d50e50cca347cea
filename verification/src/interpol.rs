use crate::errors::ChenvError;
use crate::smap::MapValue;
use crate::smap::StrMap;
use crate::strutil::char_dist;
use crate::strutil::chars_to_string;
use crate::strutil::find_char;
use crate::strutil::lemma_char_dist;
use crate::strutil::push_str_chars;
use crate::substrate::resolve_model;
use crate::substrate::Substrate;
use crate::value::val_to_display;
use crate::value::ValModel;
use vstd::prelude::*;

verus! {

/// How the evaluation of one template can fail, at the model level.
pub enum InterpErr {
    /// A `${` with no closing brace before the end of the input.
    Unterminated,
    /// The placeholder references a name absent from the context; carries the
    /// full placeholder expression.
    Missing(Seq<char>),
    /// The placeholder's dotted path did not reach exactly one value; carries
    /// the path.
    Ambiguous(Seq<char>),
}

/// Whether an executable error reports the model-level failure.
pub open spec fn err_matches(e: ChenvError, ie: InterpErr) -> bool {
    match ie {
        InterpErr::Unterminated => e matches ChenvError::UnterminatedPlaceholder,
        InterpErr::Missing(x) => e matches ChenvError::MissingVariable(s) && s@ == x,
        InterpErr::Ambiguous(p) => e matches ChenvError::AmbiguousResolution(s) && s@ == p,
    }
}

/// The referenced name of a placeholder expression: everything before the
/// first dot, or the whole expression when it has no dot.
pub open spec fn expr_name(expr: Seq<char>) -> Seq<char> {
    match char_dist(expr, 0, '.') {
        None => expr,
        Some(d) => expr.subrange(0, d as int),
    }
}

/// The dotted query path of a placeholder expression, when it has one.
pub open spec fn expr_path(expr: Seq<char>) -> Option<Seq<char>> {
    match char_dist(expr, 0, '.') {
        None => None,
        Some(d) => Some(expr.subrange(d + 1 as int, expr.len() as int)),
    }
}

/// What one placeholder expression denotes under a resolution context: the
/// display text of the named substrate, or of the unique value its dotted
/// path reaches.
pub open spec fn resolve_expr(expr: Seq<char>, ctx: Map<Seq<char>, ValModel>) -> Result<
    Seq<char>,
    InterpErr,
> {
    if !ctx.contains_key(expr_name(expr)) {
        Err(InterpErr::Missing(expr))
    } else {
        match expr_path(expr) {
            None => Ok(val_to_display(ctx[expr_name(expr)])),
            Some(p) => match resolve_model(ctx[expr_name(expr)], p) {
                Some(out) => Ok(out),
                None => Err(InterpErr::Ambiguous(p)),
            },
        }
    }
}

/// The names referenced by the placeholders of `s` from position `i` on, in
/// order of occurrence, or `None` on an unterminated placeholder.
///
/// The scan is single-pass: `${` opens a placeholder that runs to the first
/// `}`; a `$` not followed by `{` is literal text and references nothing.
pub open spec fn vars_from(s: Seq<char>, i: int) -> Option<Seq<Seq<char>>>
    decreases s.len() - i,
    via vars_from_decreases
{
    if i < 0 || i >= s.len() {
        Some(Seq::empty())
    } else if s[i] == '$' && i + 1 < s.len() && s[i + 1] == '{' {
        match char_dist(s, i + 2, '}') {
            None => None,
            Some(d) => match vars_from(s, i + 3 + d) {
                None => None,
                Some(rest) => Some(seq![expr_name(s.subrange(i + 2, i + 2 + d))] + rest),
            },
        }
    } else {
        vars_from(s, i + 1)
    }
}

#[via_fn]
proof fn vars_from_decreases(s: Seq<char>, i: int) {
    if 0 <= i && i + 1 < s.len() && s[i] == '$' && s[i + 1] == '{' {
        lemma_char_dist(s, i + 2, '}');
    }
}

/// The interpolation of `s` from position `i` on under context `ctx`:
/// literal characters pass through in place (a `$` that does not open a
/// placeholder among them), each placeholder is replaced by what it denotes,
/// and the first failure aborts the whole evaluation.
pub open spec fn interp_from(s: Seq<char>, i: int, ctx: Map<Seq<char>, ValModel>) -> Result<
    Seq<char>,
    InterpErr,
>
    decreases s.len() - i,
    via interp_from_decreases
{
    if i < 0 || i >= s.len() {
        Ok(Seq::empty())
    } else if s[i] == '$' && i + 1 < s.len() && s[i + 1] == '{' {
        match char_dist(s, i + 2, '}') {
            None => Err(InterpErr::Unterminated),
            Some(d) => match resolve_expr(s.subrange(i + 2, i + 2 + d), ctx) {
                Err(e) => Err(e),
                Ok(val) => match interp_from(s, i + 3 + d, ctx) {
                    Err(e) => Err(e),
                    Ok(rest) => Ok(val + rest),
                },
            },
        }
    } else {
        match interp_from(s, i + 1, ctx) {
            Err(e) => Err(e),
            Ok(rest) => Ok(seq![s[i]] + rest),
        }
    }
}

#[via_fn]
proof fn interp_from_decreases(s: Seq<char>, i: int, ctx: Map<Seq<char>, ValModel>) {
    if 0 <= i && i + 1 < s.len() && s[i] == '$' && s[i + 1] == '{' {
        lemma_char_dist(s, i + 2, '}');
    }
}

/// A string template containing zero or more `${name}` or `${name.path}`
/// placeholders. Stateless; it can be queried for the names it references
/// without resolving them.
#[derive(Debug)]
pub struct InterpolableString(String);

impl View for InterpolableString {
    type V = Seq<char>;

    closed spec fn view(&self) -> Seq<char> {
        self.0@
    }
}

impl DeepView for InterpolableString {
    type V = Seq<char>;

    open spec fn deep_view(&self) -> Seq<char> {
        self.view()
    }
}

impl MapValue for InterpolableString {
    fn value_eq(&self, other: &Self) -> (r: bool) {
        self.0.eq(&other.0)
    }

    fn dup(&self) -> (r: Self) {
        InterpolableString(self.0.clone())
    }
}

impl InterpolableString {
    pub fn new(s: String) -> (r: InterpolableString)
        ensures
            r@ == s@,
    {
        InterpolableString(s)
    }

    /// The template text itself.
    pub fn text(&self) -> (r: &String)
        ensures
            r@ == self@,
    {
        &self.0
    }

    /// The resource names this template references, in occurrence order with
    /// duplicates retained; fails only on an unterminated placeholder.
    pub fn get_variables(&self) -> (r: Result<Vec<String>, ChenvError>)
        ensures
            match r {
                Ok(vs) => vars_from(self@, 0) == Some(vs.deep_view()),
                Err(e) => vars_from(self@, 0) is None && e matches
                    ChenvError::UnterminatedPlaceholder,
            },
    {
        let s = self.0.as_str();
        let len = s.unicode_len();
        let mut result: Vec<String> = Vec::new();
        let mut i: usize = 0;
        proof {
            assert(result.deep_view() =~= Seq::<Seq<char>>::empty());
        }
        while i < len
            invariant
                i <= len,
                len == s@.len(),
                s@ == self@,
                match vars_from(s@, i as int) {
                    Some(rest) => vars_from(s@, 0) == Some(result.deep_view() + rest),
                    None => vars_from(s@, 0) is None,
                },
            decreases len - i,
        {
            let c = s.get_char(i);
            let opens = c == '$' && i + 1 < len && s.get_char(i + 1) == '{';
            if opens {
                match find_char(s, i + 2, '}') {
                    None => {
                        return Err(ChenvError::UnterminatedPlaceholder);
                    },
                    Some(j) => {
                        let expr = s.substring_char(i + 2, j);
                        let name = match find_char(expr, 0, '.') {
                            None => expr.to_owned(),
                            Some(d) => expr.substring_char(0, d).to_owned(),
                        };
                        proof {
                            assert(expr@ == s@.subrange(i + 2 as int, j as int));
                            assert(name@ == expr_name(expr@));
                        }
                        let ghost before = result.deep_view();
                        result.push(name);
                        proof {
                            assert(result.deep_view() =~= before.push(expr_name(
                                s@.subrange(i + 2 as int, j as int),
                            )));
                            assert(forall|rest: Seq<Seq<char>>|
                                before + (seq![
                                    expr_name(s@.subrange(i + 2 as int, j as int)),
                                ] + rest) =~= result.deep_view() + rest);
                        }
                        i = j + 1;
                    },
                }
            } else {
                i += 1;
            }
        }
        proof {
            assert(result.deep_view() + Seq::<Seq<char>>::empty() =~= result.deep_view());
        }
        Ok(result)
    }

    /// Resolves every placeholder of this template against `env`.
    pub fn interpolate(&self, env: &Env) -> (r: Result<String, ChenvError>)
        requires
            env.wf(),
        ensures
            match r {
                Ok(out) => interp_from(self@, 0, env@) == Ok::<Seq<char>, InterpErr>(out@),
                Err(e) => interp_from(self@, 0, env@) matches Err(ie) && err_matches(e, ie),
            },
    {
        env.interpolate_str(self.0.as_str())
    }
}

/// The resolution context of one run: resource name to materialized
/// substrate, built in dependency order.
pub struct Env(pub StrMap<Substrate>);

impl View for Env {
    type V = Map<Seq<char>, ValModel>;

    open spec fn view(&self) -> Map<Seq<char>, ValModel> {
        self.0@
    }
}

impl Env {
    pub open spec fn wf(&self) -> bool {
        self.0.wf()
    }

    pub fn new() -> (r: Env)
        ensures
            r@ == Map::<Seq<char>, ValModel>::empty(),
            r.wf(),
    {
        Env(StrMap::new())
    }

    pub fn insert(&mut self, key: String, value: Substrate)
        requires
            old(self).wf(),
        ensures
            final(self).wf(),
            final(self)@ == old(self)@.insert(key@, value@),
    {
        self.0.insert(key, value);
    }

    /// Resolves every placeholder of the template against this context.
    pub fn interpolate(&self, s: &InterpolableString) -> (r: Result<String, ChenvError>)
        requires
            self.wf(),
        ensures
            match r {
                Ok(out) => interp_from(s@, 0, self@) == Ok::<Seq<char>, InterpErr>(out@),
                Err(e) => interp_from(s@, 0, self@) matches Err(ie) && err_matches(e, ie),
            },
    {
        self.interpolate_str(s.text().as_str())
    }

    /// What one placeholder expression resolves to under this context.
    fn resolve_expr_exec(&self, expr: &String) -> (r: Result<String, ChenvError>)
        requires
            self.wf(),
        ensures
            match r {
                Ok(v) => resolve_expr(expr@, self@) == Ok::<Seq<char>, InterpErr>(v@),
                Err(e) => resolve_expr(expr@, self@) matches Err(ie) && err_matches(e, ie),
            },
    {
        let s = expr.as_str();
        let len = s.unicode_len();
        match find_char(s, 0, '.') {
            None => {
                proof {
                    assert(expr_name(expr@) == expr@);
                }
                match self.0.get(expr) {
                    Some(sub) => Ok(sub.to_string()),
                    None => Err(ChenvError::MissingVariable(expr.clone())),
                }
            },
            Some(d) => {
                let name = s.substring_char(0, d).to_owned();
                let path = s.substring_char(d + 1, len).to_owned();
                proof {
                    assert(name@ == expr_name(expr@));
                    assert(expr_path(expr@) == Some(path@));
                }
                match self.0.get(&name) {
                    Some(sub) => match sub.resolve(path.as_str()) {
                        Ok(v) => Ok(v),
                        Err(e) => Err(e),
                    },
                    None => Err(ChenvError::MissingVariable(expr.clone())),
                }
            },
        }
    }

    /// Interpolates the template text `s` against this context: literal text
    /// passes through and every placeholder is replaced by what it denotes.
    pub fn interpolate_str(&self, s: &str) -> (r: Result<String, ChenvError>)
        requires
            self.wf(),
        ensures
            match r {
                Ok(out) => interp_from(s@, 0, self@) == Ok::<Seq<char>, InterpErr>(out@),
                Err(e) => interp_from(s@, 0, self@) matches Err(ie) && err_matches(e, ie),
            },
    {
        let len = s.unicode_len();
        let mut out: Vec<char> = Vec::new();
        let mut i: usize = 0;
        proof {
            assert(out@ =~= Seq::<char>::empty());
        }
        while i < len
            invariant
                i <= len,
                len == s@.len(),
                self.wf(),
                match interp_from(s@, i as int, self@) {
                    Ok(rest) => interp_from(s@, 0, self@) == Ok::<Seq<char>, InterpErr>(
                        out@ + rest,
                    ),
                    Err(e) => interp_from(s@, 0, self@) == Err::<Seq<char>, InterpErr>(e),
                },
            decreases len - i,
        {
            let c = s.get_char(i);
            let opens = c == '$' && i + 1 < len && s.get_char(i + 1) == '{';
            if opens {
                match find_char(s, i + 2, '}') {
                    None => {
                        return Err(ChenvError::UnterminatedPlaceholder);
                    },
                    Some(j) => {
                        let expr = s.substring_char(i + 2, j).to_owned();
                        proof {
                            assert(expr@ == s@.subrange(i + 2 as int, j as int));
                        }
                        match self.resolve_expr_exec(&expr) {
                            Ok(val) => {
                                let ghost out_before = out@;
                                push_str_chars(&mut out, val.as_str());
                                proof {
                                    match interp_from(s@, j + 1 as int, self@) {
                                        Ok(rest) => {
                                            assert(out@ + rest =~= out_before + (val@ + rest));
                                        },
                                        Err(_) => {},
                                    }
                                }
                                i = j + 1;
                            },
                            Err(e) => {
                                return Err(e);
                            },
                        }
                    },
                }
            } else {
                let ghost out_before = out@;
                out.push(c);
                proof {
                    match interp_from(s@, i + 1 as int, self@) {
                        Ok(rest) => {
                            assert(out@ + rest =~= out_before + (seq![s@[i as int]] + rest));
                        },
                        Err(_) => {},
                    }
                }
                i += 1;
            }
        }
        Ok(chars_to_string(&out))
    }
}

} // verus!
