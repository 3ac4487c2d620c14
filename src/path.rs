use vstd::prelude::*;

verus! {

/// What one bounce of a path does: the ray leaves the scene, is absorbed, or
/// is scattered into a new ray with an attenuation.
pub enum Bounce<T, A> {
    Escaped,
    Absorbed,
    Scattered(T, A),
}

/// How a path ends: in black (depth exhausted or absorbed), or with a ray
/// that leaves the scene and takes the background's colour.
pub enum PathEnd<T> {
    Black,
    Sky(T),
}

/// The attenuations met along a path, in order, and how it ended.
pub struct Path<T, A> {
    pub attenuations: Vec<A>,
    pub end: PathEnd<T>,
}

/// `rays` and `atts` are a chain of scatterings under `bounce`: each ray
/// scatters into the next with the attenuation at the same index.
pub open spec fn chained<T, A, F: Fn(&T) -> Bounce<T, A>>(f: F, rays: Seq<T>, atts: Seq<A>) -> bool {
    &&& rays.len() == atts.len() + 1
    &&& forall|k: int|
        0 <= k < atts.len() ==> f.ensures((&rays[k],), Bounce::Scattered(rays[k + 1], atts[k]))
}

/// Follows `ray` through the scene for at most `max_depth` scatterings.
///
/// Before each bounce the depth is checked: at `max_depth` the path ends in
/// black. Otherwise `bounce` decides: an escaping ray ends the path with the
/// background, an absorbed one ends it in black, and a scattered one goes on
/// with the new ray after its attenuation is recorded.
pub fn trace_path<T, A, F: Fn(&T) -> Bounce<T, A>>(ray: T, max_depth: usize, bounce: &F) -> (r: Path<T, A>)
    requires
        forall|t: &T| bounce.requires((t,)),
    ensures
        r.attenuations@.len() <= max_depth,
        r.end is Sky ==> r.attenuations@.len() < max_depth,
        exists|rays: Seq<T>|
            {
                &&& #[trigger] chained(*bounce, rays, r.attenuations@)
                &&& rays[0] == ray
                &&& match r.end {
                    PathEnd::Sky(last) => last == rays.last() && bounce.ensures((&last,), Bounce::Escaped),
                    PathEnd::Black => r.attenuations@.len() == max_depth || bounce.ensures(
                        (&rays.last(),),
                        Bounce::Absorbed,
                    ),
                }
            },
{
    let mut attenuations: Vec<A> = Vec::new();
    let mut current = ray;
    let mut depth: usize = 0;
    let ghost mut rays: Seq<T> = seq![ray];
    loop
        invariant
            forall|t: &T| bounce.requires((t,)),
            depth == attenuations@.len(),
            depth <= max_depth,
            chained(*bounce, rays, attenuations@),
            rays[0] == ray,
            rays.last() == current,
        decreases max_depth - depth,
    {
        if depth >= max_depth {
            return Path { attenuations, end: PathEnd::Black };
        }
        let step = bounce(&current);
        match step {
            Bounce::Escaped => {
                let r = Path { attenuations, end: PathEnd::Sky(current) };
                proof {
                    assert(bounce.ensures((&current,), Bounce::Escaped));
                    assert(chained(*bounce, rays, r.attenuations@) && rays[0] == ray && rays.last() == current);
                    assert(r.end matches PathEnd::Sky(last) && last == rays.last() && bounce.ensures((&last,), Bounce::Escaped));
                }
                return r;
            },
            Bounce::Absorbed => {
                let r = Path { attenuations, end: PathEnd::Black };
                proof {
                    assert(bounce.ensures((&rays.last(),), Bounce::Absorbed));
                    assert(chained(*bounce, rays, r.attenuations@) && rays[0] == ray);
                }
                return r;
            },
            Bounce::Scattered(next, attenuation) => {
                proof {
                    rays = rays.push(next);
                }
                attenuations.push(attenuation);
                current = next;
                depth = depth + 1;
            },
        }
    }
}

} // verus!
