//! The rain simulation: a rectangular object crosses a scene while raindrop
//! particles fall, expire, spawn, and collide with the object.
//!
//! All coordinates are fixed-point scalars (see [`crate::fixed`]): an `i64`
//! holds the quantity times [`SCALE`]. One call of [`Simulation::update`]
//! advects every raindrop, culls the ones that left the scene, spawns new
//! ones at the top edge, moves the object, resolves collisions into the
//! score, and reports whether the object has fully left the scene.

use vstd::prelude::*;

use crate::fixed::{
    abs_int, fx_add, fx_mul, sat_add, sat_mul_scaled, score_add, score_plus, tdiv, SCALE,
};
use vstd::arithmetic::div_mod::{
    lemma_div_is_ordered, lemma_fundamental_div_mod, lemma_fundamental_div_mod_converse,
};
use vstd::arithmetic::mul::lemma_mul_inequality;

verus! {

/// [`SCALE`] cubed: the product of three fixed-point scalars carries the
/// scale three times, so a spawn count (a plain number of raindrops) divides
/// it back out once.
pub const SCALE_CUBED: i64 = 1000000000;

/// A two-dimensional vector of fixed-point coordinates: positions, sizes and
/// velocities.
#[derive(Clone, Copy, Debug, PartialEq, Eq, Structural)]
pub struct V2 {
    pub x: i64,
    pub y: i64,
}

impl V2 {
    /// Build a vector from its two coordinates.
    pub fn new(x: i64, y: i64) -> (r: V2)
        ensures
            r == (V2 { x, y }),
    {
        V2 { x, y }
    }
}

impl Default for V2 {
    /// The zero vector.
    fn default() -> (r: V2)
        ensures
            r == (V2 { x: 0i64, y: 0i64 }),
    {
        V2 { x: 0, y: 0 }
    }
}

/// Configuration of a [`Simulation`], fixed for its lifetime.
#[derive(Clone, Copy, Debug, PartialEq, Eq, Structural)]
pub struct SimulationParameters {
    /// Width and height of the moving object's bounding box.
    pub object_size: V2,
    /// Speed of the object along the x axis, in units per second.
    pub object_speed: i64,
    /// Width and height of the scene.
    pub scene_size: V2,
    /// Velocity added to every raindrop each step, per second.
    pub rain_speed: V2,
    /// Expected raindrops spawned per unit of scene width per second.
    pub rain_density: i64,
}

/// The world state as the contracts see it: the parameters, the object's
/// bottom-left corner, the raindrop positions in order, and the score.
pub struct SimView {
    pub params: SimulationParameters,
    pub object_position: V2,
    pub rain: Seq<V2>,
    pub score: u32,
}

/// The mutable world: an object crossing the scene, the raindrops, and the
/// collision count.
pub struct Simulation {
    /// Configuration, unchanged after construction.
    pub parameters: SimulationParameters,
    /// Bottom-left corner of the object's bounding box.
    pub object_position: V2,
    /// Raindrop positions, in insertion order.
    pub rain: Vec<V2>,
    /// Number of collisions so far.
    pub score: u32,
}

impl View for Simulation {
    type V = SimView;

    open spec fn view(&self) -> SimView {
        SimView {
            params: self.parameters,
            object_position: self.object_position,
            rain: self.rain@,
            score: self.score,
        }
    }
}

/// Where a raindrop at `p` drifts in one step: each coordinate moves by the
/// matching component of `v` scaled by `dt`.
pub open spec fn advect_drop(p: V2, v: V2, dt: i64) -> V2 {
    V2 { x: fx_add(p.x, fx_mul(v.x, dt)), y: fx_add(p.y, fx_mul(v.y, dt)) }
}

/// Every raindrop of `rain` advected by `v` over `dt`.
pub open spec fn advect_seq(rain: Seq<V2>, v: V2, dt: i64) -> Seq<V2> {
    Seq::new(rain.len(), |i: int| advect_drop(rain[i], v, dt))
}

/// A raindrop stays only while strictly inside the scene's width and above
/// its floor.
pub open spec fn in_scene(p: V2, scene: V2) -> bool {
    p.x < scene.x && p.x > 0 && p.y > 0
}

/// Order-preserving filter keeping the raindrops still in the scene.
pub open spec fn cull_seq(rain: Seq<V2>, scene: V2) -> Seq<V2>
    decreases rain.len(),
{
    if rain.len() == 0 {
        Seq::empty()
    } else {
        let rest = cull_seq(rain.drop_last(), scene);
        if in_scene(rain.last(), scene) {
            rest.push(rain.last())
        } else {
            rest
        }
    }
}

/// The raindrops spawned from the x coordinates `xs`, each at the top edge
/// `top` of the scene.
pub open spec fn spawned_seq(xs: Seq<i64>, top: i64) -> Seq<V2> {
    Seq::new(xs.len(), |i: int| V2 { x: xs[i], y: top })
}

/// A spawned x coordinate lies in `[0, width)`; with no positive width to
/// draw from, it is zero.
pub open spec fn spawn_x_ok(x: i64, width: i64) -> bool {
    if width > 0 {
        0 <= x < width
    } else {
        x == 0
    }
}

/// How many raindrops one step spawns: the whole part of
/// `rain_density * dt * scene width`, clamped below at zero (and above at
/// `u64::MAX`, where the product of the three scalars exceeds it).
pub open spec fn spawn_count_spec(density: i64, dt: i64, width: i64) -> int {
    let p = (density as int) * (dt as int) * (width as int);
    if p <= 0 {
        0
    } else if p / (SCALE_CUBED as int) > u64::MAX as int {
        u64::MAX as int
    } else {
        p / (SCALE_CUBED as int)
    }
}

/// A raindrop at `p` hits the object exactly when it lies strictly inside
/// the object's bounding box, with `pos` its bottom-left corner; touching an
/// edge does not count.
pub open spec fn colliding(p: V2, pos: V2, size: V2) -> bool {
    (pos.x as int) < (p.x as int) < (pos.x as int) + (size.x as int)
        && (pos.y as int) < (p.y as int) < (pos.y as int) + (size.y as int)
}

/// Order-preserving filter keeping the raindrops that miss the object.
pub open spec fn collide_keep(rain: Seq<V2>, pos: V2, size: V2) -> Seq<V2>
    decreases rain.len(),
{
    if rain.len() == 0 {
        Seq::empty()
    } else {
        let rest = collide_keep(rain.drop_last(), pos, size);
        if colliding(rain.last(), pos, size) {
            rest
        } else {
            rest.push(rain.last())
        }
    }
}

/// Order-preserving filter keeping the raindrops that hit the object.
pub open spec fn collide_out(rain: Seq<V2>, pos: V2, size: V2) -> Seq<V2>
    decreases rain.len(),
{
    if rain.len() == 0 {
        Seq::empty()
    } else {
        let rest = collide_out(rain.drop_last(), pos, size);
        if colliding(rain.last(), pos, size) {
            rest.push(rain.last())
        } else {
            rest
        }
    }
}

/// The raindrops a step holds right before collision resolution: the old
/// collection advected and culled, then the spawned raindrops appended.
pub open spec fn step_pool(pre: SimView, dt: i64, xs: Seq<i64>) -> Seq<V2> {
    cull_seq(advect_seq(pre.rain, pre.params.rain_speed, dt), pre.params.scene_size)
        + spawned_seq(xs, pre.params.scene_size.y)
}

/// What one step does, given the pre-state `pre`, the time increment `dt`,
/// and the x coordinates `xs` the spawn sub-step drew. Everything but `xs`
/// is determined: `post` is the state after the step, `collided` the
/// raindrops the step scored, in order, and `over` whether the object's
/// trailing edge has left the scene.
pub open spec fn step_rel(
    pre: SimView,
    post: SimView,
    dt: i64,
    xs: Seq<i64>,
    collided: Seq<V2>,
    over: bool,
) -> bool {
    let p = pre.params;
    let with_new = step_pool(pre, dt, xs);
    let pos = V2 {
        x: fx_add(pre.object_position.x, fx_mul(p.object_speed, dt)),
        y: pre.object_position.y,
    };
    &&& xs.len() == spawn_count_spec(p.rain_density, dt, p.scene_size.x)
    &&& (forall|i: int| 0 <= i < xs.len() ==> spawn_x_ok(#[trigger] xs[i], p.scene_size.x))
    &&& post.params == p
    &&& post.object_position == pos
    &&& post.rain == collide_keep(with_new, pos, p.object_size)
    &&& collided == collide_out(with_new, pos, p.object_size)
    &&& post.score == score_plus(pre.score, collide_out(with_new, pos, p.object_size).len() as int)
    &&& over == ((pos.x as int) + (p.object_size.x as int) > (p.scene_size.x as int))
}

/// Relies on `rand::random_range` over `0..bound`: a sample from that range,
/// which is nonempty here, so the call does not panic. Nothing more is
/// promised of a random value than its bound.
#[verifier::external_body]
fn random_below(bound: u64) -> (r: u64)
    requires
        bound > 0,
    ensures
        r < bound,
{
    rand::random_range(0..bound)
}

/// Unfolds one step of [`cull_seq`] along a growing prefix.
proof fn lemma_cull_step(s: Seq<V2>, scene: V2, i: int)
    requires
        0 <= i < s.len(),
    ensures
        cull_seq(s.take(i + 1), scene) == (if in_scene(s[i], scene) {
            cull_seq(s.take(i), scene).push(s[i])
        } else {
            cull_seq(s.take(i), scene)
        }),
{
    assert(s.take(i + 1).drop_last() =~= s.take(i));
    assert(s.take(i + 1).last() == s[i]);
}

/// Unfolds one step of [`collide_keep`] and [`collide_out`] along a growing
/// prefix.
proof fn lemma_collide_step(s: Seq<V2>, pos: V2, size: V2, i: int)
    requires
        0 <= i < s.len(),
    ensures
        collide_keep(s.take(i + 1), pos, size) == (if colliding(s[i], pos, size) {
            collide_keep(s.take(i), pos, size)
        } else {
            collide_keep(s.take(i), pos, size).push(s[i])
        }),
        collide_out(s.take(i + 1), pos, size) == (if colliding(s[i], pos, size) {
            collide_out(s.take(i), pos, size).push(s[i])
        } else {
            collide_out(s.take(i), pos, size)
        }),
{
    assert(s.take(i + 1).drop_last() =~= s.take(i));
    assert(s.take(i + 1).last() == s[i]);
}

impl Simulation {
    /// A fresh world: the given parameters, the object at the origin, no
    /// raindrops, score zero.
    pub fn new(parameters: SimulationParameters) -> (r: Simulation)
        ensures
            r@.params == parameters,
            r@.object_position == (V2 { x: 0i64, y: 0i64 }),
            r@.rain == Seq::<V2>::empty(),
            r@.score == 0u32,
    {
        Simulation { parameters, object_position: V2::default(), rain: Vec::new(), score: 0 }
    }

    /// One step of the simulation, also handing back the raindrops it
    /// scored, in order, for reporting. The step is pinned by [`step_rel`]
    /// up to the x coordinates the spawn sub-step drew.
    pub fn update_with_collisions(&mut self, dt: i64) -> (r: (bool, Vec<V2>))
        ensures
            exists|xs: Seq<i64>| #[trigger] step_rel(old(self)@, final(self)@, dt, xs, r.1@, r.0),
            final(self)@.score >= old(self)@.score,
    {
        let ghost pre: SimView = self@;
        let p = self.parameters;

        // Advect every raindrop by the rain velocity scaled by dt.
        let n = self.rain.len();
        let mut advected: Vec<V2> = Vec::new();
        for i in 0..n
            invariant
                n == self.rain@.len(),
                self@ == pre,
                p == pre.params,
                advected@.len() == i,
                forall|j: int|
                    0 <= j < i ==> advected@[j] == advect_drop(pre.rain[j], p.rain_speed, dt),
        {
            let d = self.rain[i];
            let nx = sat_add(d.x, sat_mul_scaled(p.rain_speed.x, dt));
            let ny = sat_add(d.y, sat_mul_scaled(p.rain_speed.y, dt));
            advected.push(V2 { x: nx, y: ny });
        }
        let ghost adv: Seq<V2> = advected@;
        proof {
            assert(adv =~= advect_seq(pre.rain, p.rain_speed, dt));
        }

        // Cull the raindrops that left the scene.
        let an = advected.len();
        let mut kept: Vec<V2> = Vec::new();
        for i in 0..an
            invariant
                an == advected@.len(),
                advected@ == adv,
                kept@ == cull_seq(adv.take(i as int), p.scene_size),
        {
            let d = advected[i];
            proof {
                lemma_cull_step(adv, p.scene_size, i as int);
            }
            if d.x < p.scene_size.x && d.x > 0 && d.y > 0 {
                kept.push(d);
            }
        }
        let ghost culled: Seq<V2> = kept@;
        proof {
            assert(adv.take(an as int) =~= adv);
        }

        // Spawn new raindrops at the top edge, at random x coordinates.
        let count = spawn_count(p.rain_density, dt, p.scene_size.x);
        let top = p.scene_size.y;
        let ghost mut xs: Seq<i64> = Seq::empty();
        proof {
            assert(kept@ =~= culled + spawned_seq(xs, top));
        }
        let mut k: u64 = 0;
        while k < count
            invariant
                k <= count,
                count as int == spawn_count_spec(p.rain_density, dt, p.scene_size.x),
                top == p.scene_size.y,
                xs.len() == k as int,
                forall|j: int| 0 <= j < xs.len() ==> spawn_x_ok(#[trigger] xs[j], p.scene_size.x),
                kept@ == culled + spawned_seq(xs, top),
            decreases count - k,
        {
            let x: i64 = if p.scene_size.x > 0 {
                random_below(p.scene_size.x as u64) as i64
            } else {
                0
            };
            let ghost oldxs = xs;
            kept.push(V2 { x, y: top });
            proof {
                xs = xs.push(x);
                assert(spawned_seq(xs, top) =~= spawned_seq(oldxs, top).push(V2 { x, y: top }));
                assert(culled + spawned_seq(xs, top) =~= (culled + spawned_seq(oldxs, top)).push(
                    V2 { x, y: top },
                ));
            }
            k = k + 1;
        }
        let ghost with_new: Seq<V2> = kept@;

        // Advance the object along the x axis.
        self.object_position.x = sat_add(
            self.object_position.x,
            sat_mul_scaled(p.object_speed, dt),
        );
        let pos = self.object_position;

        // Resolve collisions: score the raindrops strictly inside the
        // object's bounding box and keep the rest.
        let wn = kept.len();
        let mut stay: Vec<V2> = Vec::new();
        let mut hit: Vec<V2> = Vec::new();
        for i in 0..wn
            invariant
                wn == kept@.len(),
                kept@ == with_new,
                stay@ == collide_keep(with_new.take(i as int), pos, p.object_size),
                hit@ == collide_out(with_new.take(i as int), pos, p.object_size),
        {
            let d = kept[i];
            proof {
                lemma_collide_step(with_new, pos, p.object_size, i as int);
            }
            let cx = (pos.x as i128) < (d.x as i128) && (d.x as i128) < (pos.x as i128) + (
            p.object_size.x as i128);
            let cy = (pos.y as i128) < (d.y as i128) && (d.y as i128) < (pos.y as i128) + (
            p.object_size.y as i128);
            if cx && cy {
                hit.push(d);
            } else {
                stay.push(d);
            }
        }
        proof {
            assert(with_new.take(wn as int) =~= with_new);
        }
        let ns = score_add(self.score, hit.len());
        self.score = ns;
        self.rain = stay;

        // The object has left the scene once its trailing edge passes the
        // scene's width.
        let over = (pos.x as i128) + (p.object_size.x as i128) > (p.scene_size.x as i128);
        let r = (over, hit);
        proof {
            assert(step_rel(pre, self@, dt, xs, r.1@, r.0));
        }
        r
    }

    /// One step of the simulation: advection, culling, spawning, object
    /// movement, collision resolution, and the termination test, in that
    /// order. Returns whether the object's trailing edge has left the
    /// scene; the state is fully updated either way.
    pub fn update(&mut self, dt: i64) -> (over: bool)
        ensures
            exists|xs: Seq<i64>, cs: Seq<V2>|
                #[trigger] step_rel(old(self)@, final(self)@, dt, xs, cs, over),
            final(self)@.score >= old(self)@.score,
    {
        let r = self.update_with_collisions(dt);
        proof {
            let xs0 = choose|xs: Seq<i64>| step_rel(old(self)@, self@, dt, xs, r.1@, r.0);
            assert(step_rel(old(self)@, self@, dt, xs0, r.1@, r.0));
        }
        r.0
    }
}

/// Number of raindrops to spawn this step; matches [`spawn_count_spec`].
pub fn spawn_count(density: i64, dt: i64, width: i64) -> (r: u64)
    ensures
        r as int == spawn_count_spec(density, dt, width),
{
    let ghost m: int = (density as int) * (dt as int);
    let ghost p: int = m * (width as int);
    if density == 0 || dt == 0 || width == 0 {
        proof {
            assert(p == 0) by (nonlinear_arith)
                requires
                    m == (density as int) * (dt as int),
                    p == m * (width as int),
                    density == 0 || dt == 0 || width == 0;
        }
        return 0;
    }
    let neg1: bool = (density < 0) != (dt < 0);
    let neg: bool = neg1 != (width < 0);
    proof {
        if neg1 {
            assert(m < 0) by (nonlinear_arith)
                requires
                    m == (density as int) * (dt as int),
                    ((density as int) < 0) != ((dt as int) < 0),
                    density != 0,
                    dt != 0;
        } else {
            assert(m > 0) by (nonlinear_arith)
                requires
                    m == (density as int) * (dt as int),
                    ((density as int) < 0) == ((dt as int) < 0),
                    density != 0,
                    dt != 0;
        }
        if neg {
            assert(p < 0) by (nonlinear_arith)
                requires
                    p == m * (width as int),
                    (m < 0) != ((width as int) < 0),
                    m != 0,
                    width != 0;
        } else {
            assert(p > 0) by (nonlinear_arith)
                requires
                    p == m * (width as int),
                    (m < 0) == ((width as int) < 0),
                    m != 0,
                    width != 0;
        }
    }
    if neg {
        return 0;
    }
    let ad: u64 = crate::fixed::abs_u64(density);
    let at: u64 = crate::fixed::abs_u64(dt);
    proof {
        assert((ad as int) * (at as int) == abs_int(m) && (ad as int) * (at as int)
            <= 0x8000000000000000 * 0x8000000000000000) by (nonlinear_arith)
            requires
                m == (density as int) * (dt as int),
                ad as int == abs_int(density as int),
                at as int == abs_int(dt as int),
                abs_int(density as int) <= 0x8000000000000000,
                abs_int(dt as int) <= 0x8000000000000000;
    }
    let m1: u128 = (ad as u128) * (at as u128);
    let aw: u128 = crate::fixed::abs_u64(width) as u128;
    proof {
        assert(m1 as int == abs_int(m));
        assert(aw as int == abs_int(width as int));
        assert(p == (m1 as int) * (aw as int)) by (nonlinear_arith)
            requires
                p == m * (width as int),
                p > 0,
                m1 as int == abs_int(m),
                aw as int == abs_int(width as int);
    }
    let maxp: u128 = 18446744073709551615u128 * 1000000000u128;
    if m1 > maxp / aw {
        proof {
            let k = (maxp as int) / (aw as int);
            let rem = (maxp as int) % (aw as int);
            lemma_fundamental_div_mod(maxp as int, aw as int);
            vstd::arithmetic::div_mod::lemma_mod_pos_bound(maxp as int, aw as int);
            assert(p > maxp as int) by (nonlinear_arith)
                requires
                    p == (m1 as int) * (aw as int),
                    m1 as int >= k + 1,
                    maxp as int == (aw as int) * k + rem,
                    0 <= rem < aw as int,
                    aw as int > 0;
            lemma_div_is_ordered(maxp as int + 1, p, SCALE_CUBED as int);
            lemma_fundamental_div_mod_converse(
                maxp as int + 1,
                SCALE_CUBED as int,
                u64::MAX as int,
                1,
            );
            assert(p / (SCALE_CUBED as int) >= u64::MAX as int);
        }
        return u64::MAX;
    }
    proof {
        let k = (maxp as int) / (aw as int);
        let rem = (maxp as int) % (aw as int);
        lemma_fundamental_div_mod(maxp as int, aw as int);
        vstd::arithmetic::div_mod::lemma_mod_pos_bound(maxp as int, aw as int);
        assert(p <= maxp as int) by (nonlinear_arith)
            requires
                p == (m1 as int) * (aw as int),
                m1 as int <= k,
                maxp as int == (aw as int) * k + rem,
                0 <= rem < aw as int,
                aw as int > 0;
    }
    let prod: u128 = m1 * aw;
    let c: u128 = prod / 1000000000u128;
    proof {
        lemma_div_is_ordered(p, maxp as int, SCALE_CUBED as int);
        lemma_fundamental_div_mod_converse(
            maxp as int,
            SCALE_CUBED as int,
            u64::MAX as int,
            0,
        );
        assert(c as int == p / (SCALE_CUBED as int));
        assert(c as int <= u64::MAX as int);
    }
    c as u64
}

/// Every raindrop a cull keeps is strictly inside the scene.
pub proof fn lemma_cull_elems(s: Seq<V2>, scene: V2)
    ensures
        forall|i: int|
            0 <= i < cull_seq(s, scene).len() ==> in_scene(
                #[trigger] cull_seq(s, scene)[i],
                scene,
            ),
    decreases s.len(),
{
    if s.len() > 0 {
        lemma_cull_elems(s.drop_last(), scene);
        let rest = cull_seq(s.drop_last(), scene);
        assert forall|i: int| 0 <= i < cull_seq(s, scene).len() implies in_scene(
            cull_seq(s, scene)[i],
            scene,
        ) by {
            if in_scene(s.last(), scene) {
                if i < rest.len() {
                    assert(cull_seq(s, scene)[i] == rest[i]);
                } else {
                    assert(cull_seq(s, scene)[i] == s.last());
                }
            } else {
                assert(cull_seq(s, scene)[i] == rest[i]);
            }
        }
    }
}

/// Every raindrop the collision pass keeps misses the object and was
/// already in the collection; every raindrop it scores hits the object and
/// was in the collection; together they account for the whole collection.
proof fn lemma_collide_elems(s: Seq<V2>, pos: V2, size: V2)
    ensures
        forall|i: int|
            0 <= i < collide_keep(s, pos, size).len() ==> !colliding(
                #[trigger] collide_keep(s, pos, size)[i],
                pos,
                size,
            ) && s.contains(collide_keep(s, pos, size)[i]),
        forall|i: int|
            0 <= i < collide_out(s, pos, size).len() ==> colliding(
                #[trigger] collide_out(s, pos, size)[i],
                pos,
                size,
            ) && s.contains(collide_out(s, pos, size)[i]),
        collide_keep(s, pos, size).len() + collide_out(s, pos, size).len() == s.len(),
        forall|j: int|
            0 <= j < s.len() ==> (if colliding(#[trigger] s[j], pos, size) {
                collide_out(s, pos, size).contains(s[j])
            } else {
                collide_keep(s, pos, size).contains(s[j])
            }),
    decreases s.len(),
{
    if s.len() > 0 {
        let rest = s.drop_last();
        lemma_collide_elems(rest, pos, size);
        assert forall|x: V2| rest.contains(x) implies s.contains(x) by {
            let j = choose|j: int| 0 <= j < rest.len() && rest[j] == x;
            assert(s[j] == x);
        }
        assert(s[s.len() - 1] == s.last());
        assert(s.contains(s.last()));
        let keep = collide_keep(s, pos, size);
        let out = collide_out(s, pos, size);
        let keepr = collide_keep(rest, pos, size);
        let outr = collide_out(rest, pos, size);
        assert forall|j: int| 0 <= j < s.len() implies (if colliding(#[trigger] s[j], pos, size) {
            out.contains(s[j])
        } else {
            keep.contains(s[j])
        }) by {
            if j < s.len() - 1 {
                assert(rest[j] == s[j]);
                if colliding(s[j], pos, size) {
                    let t = choose|t: int| 0 <= t < outr.len() && outr[t] == s[j];
                    assert(out[t] == s[j]);
                } else {
                    let t = choose|t: int| 0 <= t < keepr.len() && keepr[t] == s[j];
                    assert(keep[t] == s[j]);
                }
            } else {
                if colliding(s[j], pos, size) {
                    assert(out[out.len() - 1] == s[j]);
                } else {
                    assert(keep[keep.len() - 1] == s[j]);
                }
            }
        }
    }
}

/// Advection, stated of one raindrop: each coordinate moves by the matching
/// velocity component scaled by the time step, exactly so while the sum
/// stays in the `i64` range (and clamped to it beyond).
pub proof fn lemma_advection(rain: Seq<V2>, v: V2, dt: i64, i: int)
    requires
        0 <= i < rain.len(),
    ensures
        advect_seq(rain, v, dt).len() == rain.len(),
        advect_seq(rain, v, dt)[i] == advect_drop(rain[i], v, dt),
        i64::MIN as int <= (rain[i].x as int) + (fx_mul(v.x, dt) as int) <= i64::MAX as int
            ==> advect_seq(rain, v, dt)[i].x as int == (rain[i].x as int) + (fx_mul(v.x, dt) as int),
        i64::MIN as int <= (rain[i].y as int) + (fx_mul(v.y, dt) as int) <= i64::MAX as int
            ==> advect_seq(rain, v, dt)[i].y as int == (rain[i].y as int) + (fx_mul(v.y, dt) as int),
{
}

/// After a step, every remaining raindrop is either strictly inside the
/// scene (it survived the cull) or was spawned this step at the top edge
/// with an x coordinate admitted by [`spawn_x_ok`]. For a scene of positive
/// width and height it follows that every remaining raindrop satisfies
/// `0 <= x < scene width` and `y > 0`, where `x == 0` can come only from a
/// raindrop spawned at the left edge.
pub proof fn lemma_step_rain_bounds(
    pre: SimView,
    post: SimView,
    dt: i64,
    xs: Seq<i64>,
    cs: Seq<V2>,
    over: bool,
)
    requires
        step_rel(pre, post, dt, xs, cs, over),
    ensures
        forall|i: int|
            0 <= i < post.rain.len() ==> in_scene(#[trigger] post.rain[i], pre.params.scene_size)
                || (post.rain[i].y == pre.params.scene_size.y && spawn_x_ok(
                post.rain[i].x,
                pre.params.scene_size.x,
            )),
        pre.params.scene_size.x > 0 && pre.params.scene_size.y > 0 ==> forall|i: int|
            0 <= i < post.rain.len() ==> 0 <= (#[trigger] post.rain[i]).x
                < pre.params.scene_size.x && post.rain[i].y > 0,
{
    let p = pre.params;
    let culled = cull_seq(advect_seq(pre.rain, p.rain_speed, dt), p.scene_size);
    let spawned = spawned_seq(xs, p.scene_size.y);
    let with_new = culled + spawned;
    let pos = V2 {
        x: fx_add(pre.object_position.x, fx_mul(p.object_speed, dt)),
        y: pre.object_position.y,
    };
    lemma_collide_elems(with_new, pos, p.object_size);
    lemma_cull_elems(advect_seq(pre.rain, p.rain_speed, dt), p.scene_size);
    assert forall|i: int|
        0 <= i < post.rain.len() implies in_scene(#[trigger] post.rain[i], p.scene_size) || (
    post.rain[i].y == p.scene_size.y && spawn_x_ok(post.rain[i].x, p.scene_size.x)) by {
        assert(with_new.contains(post.rain[i]));
        let j = choose|j: int| 0 <= j < with_new.len() && with_new[j] == post.rain[i];
        if j < culled.len() {
            assert(with_new[j] == culled[j]);
        } else {
            assert(with_new[j] == spawned[j - culled.len()]);
        }
    }
}

/// The spawn sub-step: the count of appended raindrops follows the density
/// formula, each sits at the scene's top edge, and each x coordinate is
/// admitted by [`spawn_x_ok`].
pub proof fn lemma_spawn(pre: SimView, post: SimView, dt: i64, xs: Seq<i64>, cs: Seq<V2>, over: bool)
    requires
        step_rel(pre, post, dt, xs, cs, over),
    ensures
        xs.len() == spawn_count_spec(pre.params.rain_density, dt, pre.params.scene_size.x),
        spawned_seq(xs, pre.params.scene_size.y).len() == xs.len(),
        forall|i: int|
            0 <= i < xs.len() ==> spawned_seq(xs, pre.params.scene_size.y)[i] == (V2 {
                x: xs[i],
                y: pre.params.scene_size.y,
            }),
        forall|i: int| 0 <= i < xs.len() ==> spawn_x_ok(#[trigger] xs[i], pre.params.scene_size.x),
{
}

/// The object's vertical position never changes; horizontally it never
/// moves backward under nonnegative speed and time step, stands still under
/// zero speed, and moves strictly forward as soon as `speed * dt` amounts
/// to at least one fixed-point unit (short of the `i64` ceiling).
pub proof fn lemma_object_monotone(
    pre: SimView,
    post: SimView,
    dt: i64,
    xs: Seq<i64>,
    cs: Seq<V2>,
    over: bool,
)
    requires
        step_rel(pre, post, dt, xs, cs, over),
        dt >= 0,
    ensures
        post.object_position.y == pre.object_position.y,
        pre.params.object_speed >= 0 ==> post.object_position.x >= pre.object_position.x,
        pre.params.object_speed == 0 ==> post.object_position.x == pre.object_position.x,
        (pre.params.object_speed as int) * (dt as int) >= SCALE as int && pre.object_position.x
            < i64::MAX ==> post.object_position.x > pre.object_position.x,
{
    let s = pre.params.object_speed;
    let prod = (s as int) * (dt as int);
    if s == 0 {
        assert(prod == 0) by (nonlinear_arith)
            requires
                prod == (s as int) * (dt as int),
                s == 0;
        assert(tdiv(prod, SCALE as int) == 0);
    } else if s >= 0 {
        assert(prod >= 0) by (nonlinear_arith)
            requires
                prod == (s as int) * (dt as int),
                s as int >= 0,
                dt as int >= 0;
        lemma_div_is_ordered(0, prod, SCALE as int);
    }
    if prod >= SCALE as int {
        lemma_div_is_ordered(SCALE as int, prod, SCALE as int);
        assert(SCALE as int / SCALE as int == 1);
    }
}

/// Collision resolution: after a step, no remaining raindrop lies strictly
/// inside the object's bounding box; every scored raindrop does; each
/// raindrop of the post-spawn pool is scored if it collides and kept
/// otherwise, so the two together account for the whole pool; and the score
/// grew by exactly one per scored raindrop (saturating at `u32::MAX`).
pub proof fn lemma_collision_resolution(
    pre: SimView,
    post: SimView,
    dt: i64,
    xs: Seq<i64>,
    cs: Seq<V2>,
    over: bool,
)
    requires
        step_rel(pre, post, dt, xs, cs, over),
    ensures
        forall|i: int|
            0 <= i < post.rain.len() ==> !colliding(
                #[trigger] post.rain[i],
                post.object_position,
                pre.params.object_size,
            ),
        forall|i: int|
            0 <= i < cs.len() ==> colliding(
                #[trigger] cs[i],
                post.object_position,
                pre.params.object_size,
            ),
        post.rain.len() + cs.len() == step_pool(pre, dt, xs).len(),
        forall|j: int|
            0 <= j < step_pool(pre, dt, xs).len() ==> (if colliding(
                #[trigger] step_pool(pre, dt, xs)[j],
                post.object_position,
                pre.params.object_size,
            ) {
                cs.contains(step_pool(pre, dt, xs)[j])
            } else {
                post.rain.contains(step_pool(pre, dt, xs)[j])
            }),
        post.score == score_plus(pre.score, cs.len() as int),
        post.score >= pre.score,
{
    let p = pre.params;
    let with_new = step_pool(pre, dt, xs);
    let pos = V2 {
        x: fx_add(pre.object_position.x, fx_mul(p.object_speed, dt)),
        y: pre.object_position.y,
    };
    lemma_collide_elems(with_new, pos, p.object_size);
}

/// The step reports the run as over exactly when the object's trailing edge
/// has passed the scene's width, whatever the collisions did.
pub proof fn lemma_termination(
    pre: SimView,
    post: SimView,
    dt: i64,
    xs: Seq<i64>,
    cs: Seq<V2>,
    over: bool,
)
    requires
        step_rel(pre, post, dt, xs, cs, over),
    ensures
        over == ((post.object_position.x as int) + (pre.params.object_size.x as int)
            > (pre.params.scene_size.x as int)),
{
}

} // verus!
