use vstd::prelude::*;

verus! {

/// The abstract value of an entity identifier.
pub enum IdView {
    Num(i32),
    Str(Seq<char>),
}

/// Identifier of a simulated entity: a small integer or a string.
#[derive(Hash)]
pub enum ID {
    Num(i32),
    Str(String),
}

impl View for ID {
    type V = IdView;

    open spec fn view(&self) -> IdView {
        match self {
            ID::Num(n) => IdView::Num(*n),
            ID::Str(s) => IdView::Str(s@),
        }
    }
}

impl Clone for ID {
    fn clone(&self) -> (r: ID)
        ensures
            r@ == self@,
    {
        match self {
            ID::Num(num) => ID::Num(*num),
            ID::Str(s) => ID::Str(s.clone()),
        }
    }
}

impl PartialEq for ID {
    fn eq(&self, other: &ID) -> (r: bool) {
        match (self, other) {
            (ID::Num(a), ID::Num(b)) => *a == *b,
            (ID::Str(a), ID::Str(b)) => *a == *b,
            _ => false,
        }
    }
}

impl vstd::std_specs::cmp::PartialEqSpecImpl for ID {
    open spec fn obeys_eq_spec() -> bool {
        true
    }

    open spec fn eq_spec(&self, other: &ID) -> bool {
        self@ == other@
    }
}

impl Eq for ID {

}

/// A point of the simulation plane, in integer grid units.
#[derive(Clone, Copy)]
pub struct Position {
    pub x: i64,
    pub y: i64,
}

impl Position {
    pub fn to_vec2d(&self) -> (r: Vector2d)
        ensures
            r.x == self.x,
            r.y == self.y,
    {
        Vector2d { x: self.x, y: self.y }
    }
}

/// Width (`x`) and height (`y`) of a rectangle, in grid units.
#[derive(Clone, Copy)]
pub struct Size {
    pub x: i64,
    pub y: i64,
}

/// A spring between two entities.
pub struct Spring {
    pub from: ID,
    pub to: ID,
}

/// Marks an entity whose position the integrator must not move.
pub struct Fixed {
    pub is_fixed: bool,
}

/// A two-dimensional integer vector.
#[derive(Clone, Copy)]
pub struct Vector2d {
    pub x: i64,
    pub y: i64,
}

impl Vector2d {
    pub fn add_vec(&self, vec: &Vector2d) -> (r: Vector2d)
        requires
            i64::MIN <= self.x + vec.x <= i64::MAX,
            i64::MIN <= self.y + vec.y <= i64::MAX,
        ensures
            r.x == self.x + vec.x,
            r.y == self.y + vec.y,
    {
        Vector2d { x: self.x + vec.x, y: self.y + vec.y }
    }

    pub fn sub_vec(&self, vec: &Vector2d) -> (r: Vector2d)
        requires
            i64::MIN <= self.x - vec.x <= i64::MAX,
            i64::MIN <= self.y - vec.y <= i64::MAX,
        ensures
            r.x == self.x - vec.x,
            r.y == self.y - vec.y,
    {
        Vector2d { x: self.x - vec.x, y: self.y - vec.y }
    }
}

} // verus!
