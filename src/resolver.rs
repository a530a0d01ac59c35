//! Scope resolution. Each region (the module, a block, an arrow function)
//! receives one fresh mark, and before any of its statements is resolved, every
//! name the region binds (its imports, its `const`s, an arrow's parameters) is
//! entered in the region's frame: a binding is visible in the whole region,
//! also before its declaration. Every binding gets the tag `[mark]` of its
//! region, and every reference the tag of the innermost region binding its
//! name, or the empty tag when it is free. Tags are recomputed on each pass,
//! so resolving an already resolved tree under a reset registry gives tags
//! built only from the new marks. Binding one name twice directly in one
//! region is refused.
use vstd::prelude::*;
use crate::ast::{Expr, Ident, SourceUnit, Stmt};
use crate::registry::{ContextRegistry, Mark};
use crate::scope::{bind_top, lookup_tag, ResolutionError, ScopeStack};

verus! {

/// The frames of a scope stack: per region, its mark and the names bound so far.
pub type Env = Seq<(Mark, Seq<Seq<char>>)>;

pub open spec fn empty_frame(m: Mark) -> (Mark, Seq<Seq<char>>) {
    (m, Seq::<Seq<char>>::empty())
}

pub open spec fn ident_names(ids: Seq<Ident>) -> Seq<Seq<char>> {
    ids.map_values(|i: Ident| i.name@)
}

/// `env` after each of `names` is bound, in order, in the innermost frame.
pub open spec fn bind_names(env: Env, names: Seq<Seq<char>>) -> Env
    decreases names.len(),
{
    if names.len() == 0 {
        env
    } else {
        bind_top(bind_names(env, names.drop_last()), names.last())
    }
}

/// The names a statement binds in the region where it stands.
pub open spec fn stmt_binds(s: Stmt) -> Seq<Seq<char>> {
    match s {
        Stmt::Import { specifiers, .. } => ident_names(specifiers@),
        Stmt::Const { name, .. } => seq![name.name@],
        _ => Seq::<Seq<char>>::empty(),
    }
}

/// `r` is the binding `o` made in the innermost region of `env`.
pub open spec fn binding_resolved(o: Ident, r: Ident, env: Env) -> bool {
    r.name@ == o.name@ && r.tag@ == seq![env.last().0]
}

/// `r` is the reference `o` resolved in `env`.
pub open spec fn reference_resolved(o: Ident, r: Ident, env: Env) -> bool {
    r.name@ == o.name@ && r.tag@ == lookup_tag(env, o.name@)
}

pub open spec fn bindings_resolved(o: Seq<Ident>, r: Seq<Ident>, env: Env) -> bool {
    o.len() == r.len() && forall|i: int| 0 <= i < o.len() ==> binding_resolved(o[i], r[i], env)
}

/// The names a region binds: `params` first, then those of its statements in
/// order.
pub open spec fn region_names(params: Seq<Seq<char>>, body: Seq<Stmt>) -> Seq<Seq<char>> {
    names_before(body, params, body.len())
}

/// `env` with the frame of a region marked `m` that binds `params` and the
/// names bound by `body`.
pub open spec fn region_env(env: Env, m: Mark, params: Seq<Seq<char>>, body: Seq<Stmt>) -> Env {
    env.push((m, region_names(params, body)))
}

pub open spec fn expr_resolved(o: Expr, r: Expr, env: Env) -> bool
    decreases o,
{
    match o {
        Expr::Ref(i) => match r {
            Expr::Ref(ri) => reference_resolved(i, ri, env),
            _ => false,
        },
        Expr::Number(n) => r == Expr::Number(n),
        Expr::Str(s) => match r {
            Expr::Str(rs) => rs@ == s@,
            _ => false,
        },
        Expr::Arrow { params, body, .. } => match r {
            Expr::Arrow { params: rp, body: rb, scope: Some(m) } => {
                let inner = region_env(env, m, ident_names(params@), body@);
                bindings_resolved(params@, rp@, inner) && stmts_resolved(body@, rb@, inner)
            },
            _ => false,
        },
        Expr::Call { callee, args } => match r {
            Expr::Call { callee: rc, args: ra } => expr_resolved(*callee, *rc, env) && exprs_resolved(
                args@,
                ra@,
                env,
            ),
            _ => false,
        },
        Expr::Member { object, property } => match r {
            Expr::Member { object: ro, property: rp } => rp@ == property@ && expr_resolved(
                *object,
                *ro,
                env,
            ),
            _ => false,
        },
        Expr::Binary { op, left, right } => match r {
            Expr::Binary { op: rop, left: rl, right: rr } => rop@ == op@ && expr_resolved(
                *left,
                *rl,
                env,
            ) && expr_resolved(*right, *rr, env),
            _ => false,
        },
    }
}

/// Each expression of `r` is the matching one of `o` resolved in `env`.
pub open spec fn exprs_resolved(o: Seq<Expr>, r: Seq<Expr>, env: Env) -> bool
    decreases o,
{
    o.len() == r.len() && forall|i: int| 0 <= i < o.len() ==> expr_resolved(o[i], r[i], env)
}

pub open spec fn stmt_resolved(o: Stmt, r: Stmt, env: Env) -> bool
    decreases o,
{
    match o {
        Stmt::Import { specifiers, source } => match r {
            Stmt::Import { specifiers: rs, source: rsrc } => rsrc@ == source@ && bindings_resolved(
                specifiers@,
                rs@,
                env,
            ),
            _ => false,
        },
        Stmt::Const { name, init } => match r {
            Stmt::Const { name: rn, init: ri } => binding_resolved(name, rn, env) && expr_resolved(
                init,
                ri,
                env,
            ),
            _ => false,
        },
        Stmt::Expr(e) => match r {
            Stmt::Expr(re) => expr_resolved(e, re, env),
            _ => false,
        },
        Stmt::Block { body, .. } => match r {
            Stmt::Block { body: rb, scope: Some(m) } => stmts_resolved(
                body@,
                rb@,
                region_env(env, m, Seq::empty(), body@),
            ),
            _ => false,
        },
    }
}

/// Each statement of `r` is the matching one of `o` resolved in `env`, whose
/// innermost frame already binds every name of the region.
pub open spec fn stmts_resolved(o: Seq<Stmt>, r: Seq<Stmt>, env: Env) -> bool
    decreases o,
{
    o.len() == r.len() && forall|i: int| 0 <= i < o.len() ==> stmt_resolved(o[i], r[i], env)
}

/// `r` is `o` resolved, its module region marked by `r.scope`.
pub open spec fn unit_resolved(o: SourceUnit, r: SourceUnit) -> bool {
    match r.scope {
        Some(m) => stmts_resolved(o.body@, r.body@, region_env(Seq::empty(), m, Seq::empty(), o.body@)),
        None => false,
    }
}

/// The region marks of a resolved expression, in the order of the tree.
pub open spec fn expr_marks(r: Expr) -> Seq<Mark>
    decreases r, 0nat,
{
    match r {
        Expr::Arrow { body, scope, .. } => region_mark(scope) + stmts_marks(body@, body@.len()),
        Expr::Call { callee, args } => expr_marks(*callee) + exprs_marks(args@, args@.len()),
        Expr::Member { object, .. } => expr_marks(*object),
        Expr::Binary { left, right, .. } => expr_marks(*left) + expr_marks(*right),
        _ => Seq::<Mark>::empty(),
    }
}

/// The region marks of the first `n` expressions of `rs`, in order.
pub open spec fn exprs_marks(rs: Seq<Expr>, n: nat) -> Seq<Mark>
    decreases rs, n,
{
    if n == 0 || n > rs.len() {
        Seq::<Mark>::empty()
    } else {
        exprs_marks(rs, (n - 1) as nat) + expr_marks(rs[n - 1])
    }
}

/// The region marks of a resolved statement, in the order of the tree.
pub open spec fn stmt_marks(r: Stmt) -> Seq<Mark>
    decreases r, 0nat,
{
    match r {
        Stmt::Const { init, .. } => expr_marks(init),
        Stmt::Expr(e) => expr_marks(e),
        Stmt::Block { body, scope } => region_mark(scope) + stmts_marks(body@, body@.len()),
        _ => Seq::<Mark>::empty(),
    }
}

/// The region marks of the first `n` statements of `rs`, in order.
pub open spec fn stmts_marks(rs: Seq<Stmt>, n: nat) -> Seq<Mark>
    decreases rs, n,
{
    if n == 0 || n > rs.len() {
        Seq::<Mark>::empty()
    } else {
        stmts_marks(rs, (n - 1) as nat) + stmt_marks(rs[n - 1])
    }
}

pub open spec fn region_mark(scope: Option<Mark>) -> Seq<Mark> {
    match scope {
        Some(m) => seq![m],
        None => Seq::<Mark>::empty(),
    }
}

/// The region marks of a resolved unit, its own first.
pub open spec fn unit_marks(r: SourceUnit) -> Seq<Mark> {
    region_mark(r.scope) + stmts_marks(r.body@, r.body@.len())
}

/// All of `ms` belong to generation `g`, lie in `[lo, hi)` and strictly
/// increase: so they are distinct.
pub open spec fn marks_ordered(ms: Seq<Mark>, g: u64, lo: int, hi: int) -> bool {
    &&& forall|i: int| 0 <= i < ms.len() ==> (#[trigger] ms[i]).generation == g && lo <= ms[i].index < hi
    &&& forall|i: int, j: int| 0 <= i < j < ms.len() ==> (#[trigger] ms[i]).index < (#[trigger] ms[j]).index
}

proof fn lemma_marks_concat(a: Seq<Mark>, b: Seq<Mark>, g: u64, lo: int, mid: int, hi: int)
    requires
        lo <= mid <= hi,
        marks_ordered(a, g, lo, mid),
        marks_ordered(b, g, mid, hi),
    ensures
        marks_ordered(a + b, g, lo, hi),
{
    let c = a + b;
    assert forall|i: int, j: int| 0 <= i < j < c.len() implies (#[trigger] c[i]).index < (#[trigger] c[j]).index by {
        if j < a.len() {
            assert(c[i] == a[i] && c[j] == a[j]);
        } else if i >= a.len() {
            assert(c[i] == b[i - a.len()] && c[j] == b[j - a.len()]);
        } else {
            assert(c[i] == a[i] && c[j] == b[j - a.len()]);
        }
    }
    assert forall|i: int| 0 <= i < c.len() implies (#[trigger] c[i]).generation == g && lo <= c[i].index < hi by {
        if i < a.len() {
            assert(c[i] == a[i]);
        } else {
            assert(c[i] == b[i - a.len()]);
        }
    }
}

proof fn lemma_stmts_marks_prefix(rs: Seq<Stmt>, rs2: Seq<Stmt>, n: nat)
    requires
        n <= rs.len(),
        n <= rs2.len(),
        forall|k: int| 0 <= k < n ==> rs[k] == rs2[k],
    ensures
        stmts_marks(rs, n) == stmts_marks(rs2, n),
    decreases n,
{
    if n > 0 {
        lemma_stmts_marks_prefix(rs, rs2, (n - 1) as nat);
    }
}

proof fn lemma_marks_empty(g: u64, lo: int, hi: int)
    requires
        lo <= hi,
    ensures
        marks_ordered(Seq::<Mark>::empty(), g, lo, hi),
{
}

/// `names` can be bound in order in a region that already binds `top`, with
/// no name bound twice there.
pub open spec fn fresh_names(top: Seq<Seq<char>>, names: Seq<Seq<char>>) -> bool {
    forall|i: int| 0 <= i < names.len() ==> !(top + names.take(i)).contains(#[trigger] names[i])
}

/// The names bound in a region that bound `top` and then ran the first `n`
/// statements of `o`.
pub open spec fn names_before(o: Seq<Stmt>, top: Seq<Seq<char>>, n: nat) -> Seq<Seq<char>>
    decreases n,
{
    if n == 0 || n > o.len() {
        top
    } else {
        names_before(o, top, (n - 1) as nat) + stmt_binds(o[n - 1])
    }
}

/// No region inside `o` binds a name twice.
pub open spec fn expr_well_scoped(o: Expr) -> bool
    decreases o,
{
    match o {
        Expr::Arrow { params, body, .. } => fresh_names(
            Seq::empty(),
            region_names(ident_names(params@), body@),
        ) && stmts_well_scoped(body@),
        Expr::Call { callee, args } => expr_well_scoped(*callee) && exprs_well_scoped(args@),
        Expr::Member { object, .. } => expr_well_scoped(*object),
        Expr::Binary { left, right, .. } => expr_well_scoped(*left) && expr_well_scoped(*right),
        _ => true,
    }
}

pub open spec fn exprs_well_scoped(o: Seq<Expr>) -> bool
    decreases o,
{
    forall|i: int| 0 <= i < o.len() ==> expr_well_scoped(o[i])
}

/// No region inside `o` binds a name twice.
pub open spec fn stmt_well_scoped(o: Stmt) -> bool
    decreases o,
{
    match o {
        Stmt::Import { .. } => true,
        Stmt::Const { init, .. } => expr_well_scoped(init),
        Stmt::Expr(e) => expr_well_scoped(e),
        Stmt::Block { body, .. } => fresh_names(Seq::empty(), region_names(Seq::empty(), body@))
            && stmts_well_scoped(body@),
    }
}

pub open spec fn stmts_well_scoped(o: Seq<Stmt>) -> bool
    decreases o,
{
    forall|i: int| 0 <= i < o.len() ==> stmt_well_scoped(o[i])
}

/// The number of regions inside `o`: the marks that resolving it takes.
pub open spec fn expr_regions(o: Expr) -> nat
    decreases o, 0nat,
{
    match o {
        Expr::Arrow { body, .. } => 1 + stmts_regions(body@, body@.len()),
        Expr::Call { callee, args } => expr_regions(*callee) + exprs_regions(args@, args@.len()),
        Expr::Member { object, .. } => expr_regions(*object),
        Expr::Binary { left, right, .. } => expr_regions(*left) + expr_regions(*right),
        _ => 0,
    }
}

/// The regions inside the first `n` expressions of `o`.
pub open spec fn exprs_regions(o: Seq<Expr>, n: nat) -> nat
    decreases o, n,
{
    if n == 0 || n > o.len() {
        0
    } else {
        exprs_regions(o, (n - 1) as nat) + expr_regions(o[n - 1])
    }
}

proof fn lemma_exprs_regions_monotone(o: Seq<Expr>, a: nat, b: nat)
    requires
        a <= b <= o.len(),
    ensures
        exprs_regions(o, a) <= exprs_regions(o, b),
    decreases b,
{
    if a < b {
        lemma_exprs_regions_monotone(o, a, (b - 1) as nat);
    }
}

proof fn lemma_exprs_marks_prefix(rs: Seq<Expr>, rs2: Seq<Expr>, n: nat)
    requires
        n <= rs.len(),
        n <= rs2.len(),
        forall|k: int| 0 <= k < n ==> rs[k] == rs2[k],
    ensures
        exprs_marks(rs, n) == exprs_marks(rs2, n),
    decreases n,
{
    if n > 0 {
        lemma_exprs_marks_prefix(rs, rs2, (n - 1) as nat);
    }
}

pub open spec fn stmt_regions(o: Stmt) -> nat
    decreases o, 0nat,
{
    match o {
        Stmt::Const { init, .. } => expr_regions(init),
        Stmt::Expr(e) => expr_regions(e),
        Stmt::Block { body, .. } => 1 + stmts_regions(body@, body@.len()),
        _ => 0,
    }
}

/// The regions inside the first `n` statements of `o`.
pub open spec fn stmts_regions(o: Seq<Stmt>, n: nat) -> nat
    decreases o, n,
{
    if n == 0 || n > o.len() {
        0
    } else {
        stmts_regions(o, (n - 1) as nat) + stmt_regions(o[n - 1])
    }
}

/// No region of a unit, its own included, binds a name twice.
pub open spec fn unit_well_scoped(o: SourceUnit) -> bool {
    fresh_names(Seq::empty(), region_names(Seq::empty(), o.body@)) && stmts_well_scoped(o.body@)
}

/// The regions of a unit, its own included.
pub open spec fn unit_regions(o: SourceUnit) -> nat {
    1 + stmts_regions(o.body@, o.body@.len())
}

proof fn lemma_regions_monotone(o: Seq<Stmt>, a: nat, b: nat)
    requires
        a <= b <= o.len(),
    ensures
        stmts_regions(o, a) <= stmts_regions(o, b),
    decreases b,
{
    if a < b {
        lemma_regions_monotone(o, a, (b - 1) as nat);
    }
}

proof fn lemma_bind_names_last(env: Env, names: Seq<Seq<char>>)
    requires
        env.len() > 0,
    ensures
        bind_names(env, names).last().1 == env.last().1 + names,
    decreases names.len(),
{
    if names.len() > 0 {
        lemma_bind_names_last(env, names.drop_last());
        assert((env.last().1 + names.drop_last()).push(names.last()) =~= env.last().1 + names);
    } else {
        assert(env.last().1 + names =~= env.last().1);
    }
}

proof fn lemma_bind_names_shape(env: Env, names: Seq<Seq<char>>)
    requires
        env.len() > 0,
    ensures
        bind_names(env, names).len() == env.len(),
        bind_names(env, names).drop_last() == env.drop_last(),
        bind_names(env, names).last().0 == env.last().0,
    decreases names.len(),
{
    if names.len() > 0 {
        lemma_bind_names_shape(env, names.drop_last());
    }
}

fn fresh_mark(reg: &mut ContextRegistry) -> (r: Result<Mark, ResolutionError>)
    ensures
        r is Ok ==> old(reg).can_allocate() && r->Ok_0.generation == old(reg).generation()
            && r->Ok_0.index == old(reg).next() && final(reg).next() == old(reg).next() + 1,
        r is Err ==> !old(reg).can_allocate() && r == Err::<Mark, ResolutionError>(
            ResolutionError::MarksExhausted,
        ) && *final(reg) == *old(reg),
        final(reg).generation() == old(reg).generation(),
        old(reg).next() <= final(reg).next(),
{
    if reg.has_room() {
        Ok(reg.allocate_mark())
    } else {
        Err(ResolutionError::MarksExhausted)
    }
}

fn resolve_reference(i: &Ident, scopes: &ScopeStack) -> (r: Ident)
    ensures
        reference_resolved(*i, r, scopes@),
{
    Ident { name: i.name.clone(), tag: scopes.lookup(&i.name) }
}

/// The names of `ns`, as plain sequences.
pub open spec fn names_view(ns: Seq<String>) -> Seq<Seq<char>> {
    ns.map_values(|s: String| s@)
}

fn push_ident_names(names: &mut Vec<String>, ids: &Vec<Ident>)
    ensures
        names_view(final(names)@) == names_view(old(names)@) + ident_names(ids@),
{
    let mut i: usize = 0;
    assert(names_view(names@) =~= names_view(old(names)@) + ident_names(ids@).take(0));
    while i < ids.len()
        invariant
            i <= ids.len(),
            names_view(names@) == names_view(old(names)@) + ident_names(ids@).take(i as int),
        decreases ids.len() - i,
    {
        let ghost prev = names_view(names@);
        names.push(ids[i].name.clone());
        assert(ident_names(ids@)[i as int] == ids@[i as int].name@);
        assert(ident_names(ids@).take(i + 1) =~= ident_names(ids@).take(i as int).push(ids@[i as int].name@));
        assert(names_view(names@) =~= prev.push(ids@[i as int].name@));
        assert(names_view(names@) =~= names_view(old(names)@) + ident_names(ids@).take(i + 1));
        i = i + 1;
    }
    assert(ident_names(ids@).take(i as int) =~= ident_names(ids@));
}

fn push_region_names(names: &mut Vec<String>, body: &Vec<Stmt>)
    ensures
        names_view(final(names)@) == names_before(body@, names_view(old(names)@), body@.len()),
{
    let ghost start = names_view(names@);
    let mut i: usize = 0;
    while i < body.len()
        invariant
            i <= body.len(),
            start == names_view(old(names)@),
            names_view(names@) == names_before(body@, start, i as nat),
        decreases body.len() - i,
    {
        let ghost before = names_view(names@);
        match &body[i] {
            Stmt::Import { specifiers, .. } => {
                push_ident_names(names, specifiers);
            },
            Stmt::Const { name, .. } => {
                names.push(name.name.clone());
                assert(names_view(names@) =~= before + seq![name.name@]);
            },
            _ => {
                assert(before + Seq::<Seq<char>>::empty() =~= before);
            },
        }
        i = i + 1;
    }
}

fn declare_all(names: &Vec<String>, scopes: &mut ScopeStack) -> (r: Result<(), ResolutionError>)
    requires
        old(scopes)@.len() > 0,
    ensures
        r is Ok <==> fresh_names(old(scopes)@.last().1, names_view(names@)),
        r is Ok ==> final(scopes)@ == bind_names(old(scopes)@, names_view(names@)),
        r is Err ==> r->Err_0 == ResolutionError::DuplicateBinding,
{
    let ghost ns = names_view(names@);
    let ghost top = scopes@.last().1;
    let mut i: usize = 0;
    assert(ns.take(0) =~= Seq::<Seq<char>>::empty());
    while i < names.len()
        invariant
            i <= names.len(),
            ns == names_view(names@),
            top == old(scopes)@.last().1,
            old(scopes)@.len() > 0,
            forall|j: int| 0 <= j < i ==> !(top + ns.take(j)).contains(#[trigger] ns[j]),
            scopes@ == bind_names(old(scopes)@, ns.take(i as int)),
        decreases names.len() - i,
    {
        proof {
            lemma_bind_names_shape(old(scopes)@, ns.take(i as int));
            lemma_bind_names_last(old(scopes)@, ns.take(i as int));
        }
        match scopes.declare(&names[i]) {
            Ok(_) => {},
            Err(e) => {
                assert(ns[i as int] == names@[i as int]@);
                return Err(e);
            },
        }
        assert(ns.take(i + 1).drop_last() =~= ns.take(i as int));
        i = i + 1;
    }
    assert(ns.take(i as int) =~= ns);
    Ok(())
}

/// Opens the region of `params` and `body`: takes a mark for it and enters
/// every name it binds in its frame.
fn open_region(reg: &mut ContextRegistry, scopes: &mut ScopeStack, params: &Vec<Ident>, body: &Vec<Stmt>) -> (r: Result<Mark, ResolutionError>)
    ensures
        r is Ok ==> final(scopes)@ == region_env(old(scopes)@, r->Ok_0, ident_names(params@), body@)
            && fresh_names(Seq::empty(), region_names(ident_names(params@), body@))
            && r->Ok_0.generation == old(reg).generation() && r->Ok_0.index == old(reg).next()
            && final(reg).next() == old(reg).next() + 1,
        r is Err && r->Err_0 == ResolutionError::DuplicateBinding ==> !fresh_names(
            Seq::empty(),
            region_names(ident_names(params@), body@),
        ),
        r is Err && r->Err_0 == ResolutionError::MarksExhausted ==> !old(reg).can_allocate(),
        final(reg).generation() == old(reg).generation(),
        old(reg).next() <= final(reg).next(),
{
    let m = match fresh_mark(reg) {
        Ok(m) => m,
        Err(er) => return Err(er),
    };
    let mut names: Vec<String> = Vec::new();
    assert(names_view(names@) =~= Seq::<Seq<char>>::empty());
    push_ident_names(&mut names, params);
    assert(Seq::<Seq<char>>::empty() + ident_names(params@) =~= ident_names(params@));
    push_region_names(&mut names, body);
    scopes.push_frame(m);
    let ghost opened = scopes@;
    match declare_all(&names, scopes) {
        Ok(()) => {},
        Err(er) => return Err(er),
    }
    proof {
        let ns = names_view(names@);
        lemma_bind_names_shape(opened, ns);
        lemma_bind_names_last(opened, ns);
        assert(Seq::<Seq<char>>::empty() + ns =~= ns);
        assert(opened.drop_last() =~= old(scopes)@);
        let se = scopes@;
        let want = region_env(old(scopes)@, m, ident_names(params@), body@);
        assert(se.last() == (m, ns));
        assert forall|k: int| 0 <= k < se.len() implies se[k] == want[k] by {
            if k < se.len() - 1 {
                assert(se[k] == se.drop_last()[k]);
            }
        }
        assert(se =~= want);
    }
    Ok(m)
}

fn tag_bindings(ids: &Vec<Ident>, m: Mark) -> (r: Vec<Ident>)
    ensures
        r@.len() == ids@.len(),
        forall|i: int| 0 <= i < ids@.len() ==> (#[trigger] r@[i]).name@ == ids@[i].name@ && r@[i].tag@ == seq![m],
{
    let mut out: Vec<Ident> = Vec::new();
    let mut i: usize = 0;
    while i < ids.len()
        invariant
            i <= ids.len(),
            out@.len() == i,
            forall|j: int| 0 <= j < i ==> (#[trigger] out@[j]).name@ == ids@[j].name@ && out@[j].tag@ == seq![m],
        decreases ids.len() - i,
    {
        out.push(Ident { name: ids[i].name.clone(), tag: vec![m] });
        i = i + 1;
    }
    out
}

fn resolve_expr(e: &Expr, reg: &mut ContextRegistry, scopes: &mut ScopeStack) -> (r: Result<Expr, ResolutionError>)
    requires
        old(scopes)@.len() > 0,
    ensures
        r is Ok ==> expr_resolved(*e, r->Ok_0, old(scopes)@) && final(scopes)@ == old(scopes)@,
        r is Ok ==> marks_ordered(expr_marks(r->Ok_0), old(reg).generation(), old(reg).next() as int, final(reg).next() as int),
        r is Ok ==> expr_well_scoped(*e) && final(reg).next() == old(reg).next() + expr_regions(*e),
        r is Err && r->Err_0 == ResolutionError::DuplicateBinding ==> !expr_well_scoped(*e),
        r is Err && r->Err_0 == ResolutionError::MarksExhausted ==> old(reg).next() + expr_regions(*e) > u64::MAX,
        final(reg).generation() == old(reg).generation(),
        old(reg).next() <= final(reg).next(),
    decreases e,
{
    proof {
        lemma_marks_empty(reg.generation(), reg.next() as int, reg.next() as int);
    }
    match e {
        Expr::Ref(i) => Ok(Expr::Ref(resolve_reference(i, scopes))),
        Expr::Number(n) => Ok(Expr::Number(*n)),
        Expr::Str(s) => Ok(Expr::Str(s.clone())),
        Expr::Arrow { params, body, .. } => {
            let m = match open_region(reg, scopes, params, body) {
                Ok(m) => m,
                Err(er) => return Err(er),
            };
            let rp = tag_bindings(params, m);
            let rb = match resolve_stmts(body, reg, scopes) {
                Ok(v) => v,
                Err(er) => return Err(er),
            };
            proof {
                lemma_marks_concat(seq![m], stmts_marks(rb@, rb@.len()), reg.generation(), old(reg).next() as int, m.index + 1, reg.next() as int);
            }
            scopes.pop_frame();
            assert(scopes@ =~= old(scopes)@);
            Ok(Expr::Arrow { params: rp, body: rb, scope: Some(m) })
        },
        Expr::Call { callee, args } => {
            let rc = match resolve_expr(&**callee, reg, scopes) {
                Ok(x) => x,
                Err(er) => return Err(er),
            };
            let ghost mid = reg.next();
            let ra = match resolve_exprs(args, reg, scopes) {
                Ok(v) => v,
                Err(er) => return Err(er),
            };
            proof {
                lemma_marks_concat(expr_marks(rc), exprs_marks(ra@, ra@.len()), reg.generation(), old(reg).next() as int, mid as int, reg.next() as int);
            }
            Ok(Expr::Call { callee: Box::new(rc), args: ra })
        },
        Expr::Member { object, property } => {
            let ro = match resolve_expr(&**object, reg, scopes) {
                Ok(x) => x,
                Err(er) => return Err(er),
            };
            Ok(Expr::Member { object: Box::new(ro), property: property.clone() })
        },
        Expr::Binary { op, left, right } => {
            let rl = match resolve_expr(&**left, reg, scopes) {
                Ok(x) => x,
                Err(er) => return Err(er),
            };
            let ghost mid = reg.next();
            let rr = match resolve_expr(&**right, reg, scopes) {
                Ok(x) => x,
                Err(er) => return Err(er),
            };
            proof {
                lemma_marks_concat(expr_marks(rl), expr_marks(rr), reg.generation(), old(reg).next() as int, mid as int, reg.next() as int);
            }
            Ok(Expr::Binary { op: op.clone(), left: Box::new(rl), right: Box::new(rr) })
        },
    }
}

fn resolve_exprs(es: &Vec<Expr>, reg: &mut ContextRegistry, scopes: &mut ScopeStack) -> (r: Result<Vec<Expr>, ResolutionError>)
    requires
        old(scopes)@.len() > 0,
    ensures
        r is Ok ==> exprs_resolved(es@, r->Ok_0@, old(scopes)@) && final(scopes)@ == old(scopes)@,
        r is Ok ==> marks_ordered(exprs_marks(r->Ok_0@, es@.len()), old(reg).generation(), old(reg).next() as int, final(reg).next() as int),
        r is Ok ==> exprs_well_scoped(es@) && final(reg).next() == old(reg).next() + exprs_regions(es@, es@.len()),
        r is Err && r->Err_0 == ResolutionError::DuplicateBinding ==> !exprs_well_scoped(es@),
        r is Err && r->Err_0 == ResolutionError::MarksExhausted ==> old(reg).next() + exprs_regions(
            es@,
            es@.len(),
        ) > u64::MAX,
        final(reg).generation() == old(reg).generation(),
        old(reg).next() <= final(reg).next(),
    decreases es,
{
    let mut out: Vec<Expr> = Vec::new();
    let mut i: usize = 0;
    proof {
        lemma_marks_empty(reg.generation(), reg.next() as int, reg.next() as int);
    }
    while i < es.len()
        invariant
            i <= es.len(),
            old(scopes)@.len() > 0,
            scopes@ == old(scopes)@,
            out@.len() == i,
            forall|j: int| 0 <= j < i ==> expr_resolved(es@[j], #[trigger] out@[j], old(scopes)@),
            forall|j: int| 0 <= j < i ==> expr_well_scoped(#[trigger] es@[j]),
            reg.generation() == old(reg).generation(),
            reg.next() == old(reg).next() + exprs_regions(es@, i as nat),
            marks_ordered(exprs_marks(out@, i as nat), reg.generation(), old(reg).next() as int, reg.next() as int),
        decreases es.len() - i,
    {
        proof {
            lemma_exprs_regions_monotone(es@, (i + 1) as nat, es@.len());
        }
        let ghost mid = reg.next();
        let ghost prev = out@;
        let re = match resolve_expr(&es[i], reg, scopes) {
            Ok(v) => v,
            Err(er) => return Err(er),
        };
        out.push(re);
        proof {
            lemma_exprs_marks_prefix(prev, out@, i as nat);
            lemma_marks_concat(exprs_marks(prev, i as nat), expr_marks(out@[i as int]), reg.generation(), old(reg).next() as int, mid as int, reg.next() as int);
        }
        i = i + 1;
    }
    Ok(out)
}

fn resolve_stmt(s: &Stmt, reg: &mut ContextRegistry, scopes: &mut ScopeStack) -> (r: Result<Stmt, ResolutionError>)
    requires
        old(scopes)@.len() > 0,
    ensures
        r is Ok ==> stmt_resolved(*s, r->Ok_0, old(scopes)@) && final(scopes)@ == old(scopes)@,
        r is Ok ==> marks_ordered(stmt_marks(r->Ok_0), old(reg).generation(), old(reg).next() as int, final(reg).next() as int),
        r is Ok ==> stmt_well_scoped(*s) && final(reg).next() == old(reg).next() + stmt_regions(*s),
        r is Err && r->Err_0 == ResolutionError::DuplicateBinding ==> !stmt_well_scoped(*s),
        r is Err && r->Err_0 == ResolutionError::MarksExhausted ==> old(reg).next() + stmt_regions(*s) > u64::MAX,
        final(reg).generation() == old(reg).generation(),
        old(reg).next() <= final(reg).next(),
    decreases s,
{
    proof {
        lemma_marks_empty(reg.generation(), reg.next() as int, reg.next() as int);
    }
    match s {
        Stmt::Import { specifiers, source } => {
            let m = scopes.top_mark();
            let rs = tag_bindings(specifiers, m);
            assert(bindings_resolved(specifiers@, rs@, scopes@));
            Ok(Stmt::Import { specifiers: rs, source: source.clone() })
        },
        Stmt::Const { name, init } => {
            let m = scopes.top_mark();
            let ri = match resolve_expr(init, reg, scopes) {
                Ok(x) => x,
                Err(er) => return Err(er),
            };
            let tag = vec![m];
            assert(tag@ =~= seq![m]);
            Ok(Stmt::Const { name: Ident { name: name.name.clone(), tag }, init: ri })
        },
        Stmt::Expr(x) => {
            let rx = match resolve_expr(x, reg, scopes) {
                Ok(v) => v,
                Err(er) => return Err(er),
            };
            Ok(Stmt::Expr(rx))
        },
        Stmt::Block { body, .. } => {
            let none: Vec<Ident> = Vec::new();
            assert(ident_names(none@) =~= Seq::<Seq<char>>::empty());
            let m = match open_region(reg, scopes, &none, body) {
                Ok(m) => m,
                Err(er) => return Err(er),
            };
            let rb = match resolve_stmts(body, reg, scopes) {
                Ok(v) => v,
                Err(er) => return Err(er),
            };
            proof {
                lemma_marks_concat(seq![m], stmts_marks(rb@, rb@.len()), reg.generation(), old(reg).next() as int, m.index + 1, reg.next() as int);
            }
            scopes.pop_frame();
            assert(scopes@ =~= old(scopes)@);
            Ok(Stmt::Block { body: rb, scope: Some(m) })
        },
    }
}

fn resolve_stmts(body: &Vec<Stmt>, reg: &mut ContextRegistry, scopes: &mut ScopeStack) -> (r: Result<Vec<Stmt>, ResolutionError>)
    requires
        old(scopes)@.len() > 0,
    ensures
        r is Ok ==> stmts_resolved(body@, r->Ok_0@, old(scopes)@) && final(scopes)@ == old(scopes)@,
        r is Ok ==> marks_ordered(stmts_marks(r->Ok_0@, body@.len()), old(reg).generation(), old(reg).next() as int, final(reg).next() as int),
        r is Ok ==> stmts_well_scoped(body@) && final(reg).next() == old(reg).next() + stmts_regions(body@, body@.len()),
        r is Err && r->Err_0 == ResolutionError::DuplicateBinding ==> !stmts_well_scoped(body@),
        r is Err && r->Err_0 == ResolutionError::MarksExhausted ==> old(reg).next() + stmts_regions(
            body@,
            body@.len(),
        ) > u64::MAX,
        final(reg).generation() == old(reg).generation(),
        old(reg).next() <= final(reg).next(),
    decreases body,
{
    let mut out: Vec<Stmt> = Vec::new();
    let mut i: usize = 0;
    proof {
        lemma_marks_empty(reg.generation(), reg.next() as int, reg.next() as int);
    }
    while i < body.len()
        invariant
            i <= body.len(),
            old(scopes)@.len() > 0,
            scopes@ == old(scopes)@,
            out@.len() == i,
            forall|j: int| 0 <= j < i ==> stmt_resolved(body@[j], #[trigger] out@[j], old(scopes)@),
            forall|j: int| 0 <= j < i ==> stmt_well_scoped(#[trigger] body@[j]),
            reg.generation() == old(reg).generation(),
            reg.next() == old(reg).next() + stmts_regions(body@, i as nat),
            marks_ordered(stmts_marks(out@, i as nat), reg.generation(), old(reg).next() as int, reg.next() as int),
        decreases body.len() - i,
    {
        proof {
            lemma_regions_monotone(body@, (i + 1) as nat, body@.len());
        }
        let ghost mid = reg.next();
        let ghost prev = out@;
        let rs = match resolve_stmt(&body[i], reg, scopes) {
            Ok(v) => v,
            Err(er) => return Err(er),
        };
        out.push(rs);
        proof {
            lemma_stmts_marks_prefix(prev, out@, i as nat);
            lemma_marks_concat(stmts_marks(prev, i as nat), stmt_marks(out@[i as int]), reg.generation(), old(reg).next() as int, mid as int, reg.next() as int);
        }
        i = i + 1;
    }
    Ok(out)
}

/// Resolves a unit: its region and every region inside it receive a fresh
/// mark, each binding the tag of its region, each reference the tag of the
/// innermost region binding its name (empty when there is none), a region's
/// bindings being visible in the whole region. Succeeds exactly when no
/// region binds a name twice and the registry has a mark left for every
/// region.
pub fn resolve(unit: &SourceUnit, reg: &mut ContextRegistry) -> (r: Result<SourceUnit, ResolutionError>)
    ensures
        r is Ok <==> unit_well_scoped(*unit) && old(reg).next() + unit_regions(*unit) <= u64::MAX,
        r is Ok ==> unit_resolved(*unit, r->Ok_0),
        r is Ok ==> marks_ordered(unit_marks(r->Ok_0), old(reg).generation(), old(reg).next() as int, final(reg).next() as int),
        r is Ok ==> final(reg).next() == old(reg).next() + unit_regions(*unit),
        r is Err && r->Err_0 == ResolutionError::DuplicateBinding ==> !unit_well_scoped(*unit),
        r is Err && r->Err_0 == ResolutionError::MarksExhausted ==> old(reg).next() + unit_regions(
            *unit,
        ) > u64::MAX,
        final(reg).generation() == old(reg).generation(),
        old(reg).next() <= final(reg).next(),
{
    let mut scopes = ScopeStack::new();
    let none: Vec<Ident> = Vec::new();
    assert(ident_names(none@) =~= Seq::<Seq<char>>::empty());
    let m = match open_region(reg, &mut scopes, &none, &unit.body) {
        Ok(m) => m,
        Err(er) => return Err(er),
    };
    let body = match resolve_stmts(&unit.body, reg, &mut scopes) {
        Ok(v) => v,
        Err(er) => return Err(er),
    };
    proof {
        lemma_marks_concat(seq![m], stmts_marks(body@, body@.len()), reg.generation(), old(reg).next() as int, m.index + 1, reg.next() as int);
    }
    Ok(SourceUnit { body, scope: Some(m) })
}

/// Bindings made in two different regions of one resolved unit never share a
/// tag. A binding's tag is the single mark of its region, and `resolve` gives
/// the regions of a unit strictly increasing, hence distinct, marks.
pub proof fn lemma_distinct_regions_distinct_tags(r: SourceUnit, g: u64, lo: int, hi: int, i: int, j: int)
    requires
        marks_ordered(unit_marks(r), g, lo, hi),
        0 <= i < unit_marks(r).len(),
        0 <= j < unit_marks(r).len(),
        i != j,
    ensures
        unit_marks(r)[i] != unit_marks(r)[j],
        seq![unit_marks(r)[i]] != seq![unit_marks(r)[j]],
{
    let ms = unit_marks(r);
    if i < j {
        assert(ms[i].index < ms[j].index);
    } else {
        assert(ms[j].index < ms[i].index);
    }
    assert(seq![ms[i]][0] == ms[i]);
}

/// A reference receives the empty tag exactly when no active region binds its
/// name; otherwise its tag is exactly the tag of the bindings of the innermost
/// region that binds the name, `[mark]` of that region.
pub proof fn lemma_reference_matches_binding(env: Env, name: Seq<char>)
    ensures
        lookup_tag(env, name).len() == 0 <==> forall|k: int|
            0 <= k < env.len() ==> !(#[trigger] env[k]).1.contains(name),
        lookup_tag(env, name).len() > 0 ==> exists|k: int|
            0 <= k < env.len() && (#[trigger] env[k]).1.contains(name) && lookup_tag(env, name)
                == seq![env[k].0] && forall|k2: int|
                k < k2 < env.len() ==> !(#[trigger] env[k2]).1.contains(name),
    decreases env.len(),
{
    if env.len() > 0 {
        let rest = env.drop_last();
        lemma_reference_matches_binding(rest, name);
        let last = env.len() - 1;
        assert(env[last] == env.last());
        if env.last().1.contains(name) {
            assert(lookup_tag(env, name) == seq![env[last].0]);
        } else {
            assert forall|k: int| 0 <= k < rest.len() implies rest[k] == env[k] by {}
            if lookup_tag(rest, name).len() > 0 {
                let k = choose|k: int|
                    0 <= k < rest.len() && (#[trigger] rest[k]).1.contains(name) && lookup_tag(rest, name)
                        == seq![rest[k].0] && forall|k2: int|
                        k < k2 < rest.len() ==> !(#[trigger] rest[k2]).1.contains(name);
                assert(env[k] == rest[k]);
                assert forall|k2: int| k < k2 < env.len() implies !(#[trigger] env[k2]).1.contains(name) by {
                    if k2 < rest.len() {
                        assert(env[k2] == rest[k2]);
                    }
                }
            }
        }
    }
}

/// Resolving under a registry that was reset (a new generation) never gives a
/// region the mark of a region resolved before the reset, so the new tags never
/// collide with the earlier ones. This isolation comes from resetting one
/// registry: two registries created apart number their marks independently and
/// may hand out equal marks.
pub proof fn lemma_fresh_registry_isolates(
    earlier: SourceUnit,
    later: SourceUnit,
    g1: u64,
    lo1: int,
    hi1: int,
    g2: u64,
    lo2: int,
    hi2: int,
    i: int,
    j: int,
)
    requires
        marks_ordered(unit_marks(earlier), g1, lo1, hi1),
        marks_ordered(unit_marks(later), g2, lo2, hi2),
        g1 != g2,
        0 <= i < unit_marks(earlier).len(),
        0 <= j < unit_marks(later).len(),
    ensures
        seq![unit_marks(earlier)[i]] != seq![unit_marks(later)[j]],
{
    assert(seq![unit_marks(earlier)[i]][0] == unit_marks(earlier)[i]);
    assert(seq![unit_marks(later)[j]][0] == unit_marks(later)[j]);
}

/// Only a free reference is left with the empty tag, and its tag differs from
/// the tag of every binding, whatever region made it: a binding's tag is one
/// mark, and a reference whose name no active region binds gets the empty tag.
pub proof fn lemma_free_reference_untagged(
    env: Env,
    o: Ident,
    r: Ident,
    ob: Ident,
    b: Ident,
    benv: Env,
)
    requires
        reference_resolved(o, r, env),
        forall|k: int| 0 <= k < env.len() ==> !(#[trigger] env[k]).1.contains(o.name@),
        binding_resolved(ob, b, benv),
    ensures
        r.tag@.len() == 0,
        r.tag@ != b.tag@,
{
    lemma_reference_matches_binding(env, o.name@);
    assert(b.tag@.len() == 1);
}

} // verus!

