//! Generic geometry types for layout results: points, sizes and edge rectangles.
use vstd::prelude::*;

verus! {

/// A 2D point with `x` and `y` coordinates.
#[derive(Debug, Copy, Clone, PartialEq, Default)]
pub struct Point<T> {
    pub x: T,
    pub y: T,
}

/// A 2D size with `width` and `height`.
#[derive(Debug, Copy, Clone, PartialEq, Default)]
pub struct Size<T> {
    pub width: T,
    pub height: T,
}

/// A rectangle defined by its edges: `left`, `right`, `top`, `bottom`.
#[derive(Debug, Copy, Clone, PartialEq, Default)]
pub struct Rect<T> {
    pub left: T,
    pub right: T,
    pub top: T,
    pub bottom: T,
}

impl<T> Point<T> {
    /// A point at `(x, y)`.
    pub fn new(x: T, y: T) -> (r: Self)
        ensures
            r.x == x,
            r.y == y,
    {
        Point { x, y }
    }
}

impl<T> Size<T> {
    /// A size of `width` by `height`.
    pub fn new(width: T, height: T) -> (r: Self)
        ensures
            r.width == width,
            r.height == height,
    {
        Size { width, height }
    }

    /// Applies a mapping function to both width and height.
    pub fn map<R, F: Fn(T) -> R>(self, f: F) -> (r: Size<R>)
        requires
            call_requires(f, (self.width,)),
            call_requires(f, (self.height,)),
        ensures
            call_ensures(f, (self.width,), r.width),
            call_ensures(f, (self.height,), r.height),
    {
        Size { width: f(self.width), height: f(self.height) }
    }
}

/// Mapping a size by a function that gives back its argument leaves it as it is: the
/// size `r` that `Size::map` gives for `f` is `s`.
pub proof fn law_size_map_identity<T, F: Fn(T) -> T>(s: Size<T>, f: F, r: Size<T>)
    requires
        call_ensures(f, (s.width,), r.width),
        call_ensures(f, (s.height,), r.height),
        forall|x: T, y: T| call_ensures(f, (x,), y) ==> y == x,
    ensures
        r == s,
{
}

/// Mapping a size by `f` and then by `g` gives what mapping it once by `h` does, where `h`
/// is `g` after `f` and all three are functions (one result per argument): `m` is `s`
/// mapped by `f`, `r` is `m` mapped by `g`, `q` is `s` mapped by `h`.
pub proof fn law_size_map_compose<T, U, V, F: Fn(T) -> U, G: Fn(U) -> V, H: Fn(T) -> V>(
    s: Size<T>,
    f: F,
    g: G,
    h: H,
    m: Size<U>,
    r: Size<V>,
    q: Size<V>,
)
    requires
        call_ensures(f, (s.width,), m.width),
        call_ensures(f, (s.height,), m.height),
        call_ensures(g, (m.width,), r.width),
        call_ensures(g, (m.height,), r.height),
        call_ensures(h, (s.width,), q.width),
        call_ensures(h, (s.height,), q.height),
        forall|x: T, y1: U, y2: U| call_ensures(f, (x,), y1) && call_ensures(f, (x,), y2) ==> y1 == y2,
        forall|y: U, z1: V, z2: V| call_ensures(g, (y,), z1) && call_ensures(g, (y,), z2) ==> z1 == z2,
        forall|x: T, z: V| call_ensures(h, (x,), z) ==> exists|y: U| call_ensures(f, (x,), y) && call_ensures(g, (y,), z),
    ensures
        r == q,
{
    let yw = choose|y: U| call_ensures(f, (s.width,), y) && call_ensures(g, (y,), q.width);
    let yh = choose|y: U| call_ensures(f, (s.height,), y) && call_ensures(g, (y,), q.height);
    assert(yw == m.width);
    assert(yh == m.height);
}

impl<T> Rect<T> {
    /// A rectangle with the given edges.
    pub fn new(left: T, right: T, top: T, bottom: T) -> (r: Self)
        ensures
            r.left == left,
            r.right == right,
            r.top == top,
            r.bottom == bottom,
    {
        Rect { left, right, top, bottom }
    }

    /// Applies a mapping function to all four edges.
    pub fn map<R, F: Fn(T) -> R>(self, f: F) -> (r: Rect<R>)
        requires
            call_requires(f, (self.left,)),
            call_requires(f, (self.right,)),
            call_requires(f, (self.top,)),
            call_requires(f, (self.bottom,)),
        ensures
            call_ensures(f, (self.left,), r.left),
            call_ensures(f, (self.right,), r.right),
            call_ensures(f, (self.top,), r.top),
            call_ensures(f, (self.bottom,), r.bottom),
    {
        Rect { left: f(self.left), right: f(self.right), top: f(self.top), bottom: f(self.bottom) }
    }
}

} // verus!
