//! Errors produced while encoding, together with the path of locations at
//! which they occurred.
use vstd::prelude::*;

verus! {

/// The kind of value that we were trying to encode when an error occurred.
#[derive(Clone, Copy, PartialEq, Eq, Structural, Debug)]
pub enum Kind {
    Struct,
    Tuple,
    Variant,
    Array,
    BitSequence,
    Bool,
    Char,
    Str,
    Number,
}

/// One step of the path from the outermost value to the place of an error.
#[derive(Debug)]
pub enum Location {
    /// An index into a sequence, tuple or unnamed field list.
    Idx(usize),
    /// A named field.
    Field(String),
    /// A named variant.
    Variant(String),
}

/// What a location is, in terms of plain values.
pub enum LocationView {
    Idx(nat),
    Field(Seq<char>),
    Variant(Seq<char>),
}

impl View for Location {
    type V = LocationView;

    open spec fn view(&self) -> LocationView {
        match self {
            Location::Idx(i) => LocationView::Idx(*i as nat),
            Location::Field(s) => LocationView::Field(s@),
            Location::Variant(s) => LocationView::Variant(s@),
        }
    }
}

impl Location {
    /// A location naming a sequence index.
    pub fn idx(i: usize) -> (r: Location)
        ensures
            r@ == LocationView::Idx(i as nat),
    {
        Location::Idx(i)
    }

    /// A location naming a field.
    pub fn field(name: String) -> (r: Location)
        ensures
            r@ == LocationView::Field(name@),
    {
        Location::Field(name)
    }

    /// A location naming a variant.
    pub fn variant(name: String) -> (r: Location)
        ensures
            r@ == LocationView::Variant(name@),
    {
        Location::Variant(name)
    }
}

/// The path at which an error occurred. Locations are pushed as the error
/// travels outwards, so the innermost location comes first.
#[derive(Debug)]
pub struct Context {
    path: Vec<Location>,
}

impl View for Context {
    type V = Seq<LocationView>;

    closed spec fn view(&self) -> Seq<LocationView> {
        self.path@.map_values(|l: Location| l@)
    }
}

impl Context {
    /// An empty path.
    pub fn new() -> (r: Context)
        ensures
            r@ == Seq::<LocationView>::empty(),
    {
        let r = Context { path: Vec::new() };
        assert(r@ =~= Seq::<LocationView>::empty());
        r
    }

    /// Append a location to the path.
    pub fn push(&mut self, loc: Location)
        ensures
            final(self)@ == old(self)@.push(loc@),
    {
        self.path.push(loc);
        assert(self@ =~= old(self)@.push(loc@));
    }

    /// The number of locations in the path.
    pub fn len(&self) -> (r: usize)
        ensures
            r == self@.len(),
    {
        self.path.len()
    }

    /// The location at position `i` of the path (innermost first).
    pub fn get(&self, i: usize) -> (r: &Location)
        requires
            i < self@.len(),
        ensures
            r@ == self@[i as int],
    {
        &self.path[i]
    }
}

/// The underlying nature of an error.
#[derive(Debug)]
pub enum ErrorKind {
    /// The type registry could not answer a query.
    TypeResolvingError(String),
    /// No type with this identifier exists.
    TypeNotFound(u32),
    /// The value cannot be encoded into the shape of the target type.
    WrongShape { actual: Kind, expected_id: u32 },
    /// The shapes line up but the lengths do not.
    WrongLength { actual_len: usize, expected_len: usize },
    /// The number (in decimal) does not fit the target numeric type.
    NumberOutOfRange { value: String, expected_id: u32 },
    /// The target type has no variant with this name.
    CannotFindVariant { name: String, expected_id: u32 },
    /// The source value has no field with this name.
    CannotFindField { name: String },
    /// An error of some other origin.
    Custom(String),
}

/// What an error kind is, in terms of plain values.
pub enum ErrorKindView {
    TypeResolvingError(Seq<char>),
    TypeNotFound(u32),
    WrongShape(Kind, u32),
    WrongLength(nat, nat),
    NumberOutOfRange(Seq<char>, u32),
    CannotFindVariant(Seq<char>, u32),
    CannotFindField(Seq<char>),
    Custom(Seq<char>),
}

impl View for ErrorKind {
    type V = ErrorKindView;

    open spec fn view(&self) -> ErrorKindView {
        match self {
            ErrorKind::TypeResolvingError(s) => ErrorKindView::TypeResolvingError(s@),
            ErrorKind::TypeNotFound(id) => ErrorKindView::TypeNotFound(*id),
            ErrorKind::WrongShape { actual, expected_id } => ErrorKindView::WrongShape(
                *actual,
                *expected_id,
            ),
            ErrorKind::WrongLength { actual_len, expected_len } => ErrorKindView::WrongLength(
                *actual_len as nat,
                *expected_len as nat,
            ),
            ErrorKind::NumberOutOfRange { value, expected_id } => ErrorKindView::NumberOutOfRange(
                value@,
                *expected_id,
            ),
            ErrorKind::CannotFindVariant { name, expected_id } => ErrorKindView::CannotFindVariant(
                name@,
                *expected_id,
            ),
            ErrorKind::CannotFindField { name } => ErrorKindView::CannotFindField(name@),
            ErrorKind::Custom(s) => ErrorKindView::Custom(s@),
        }
    }
}

/// An error: what went wrong, and where.
#[derive(Debug)]
pub struct Error {
    context: Context,
    kind: ErrorKind,
}

/// What an error is, in terms of plain values: its kind and its path,
/// innermost location first.
pub struct ErrorView {
    pub kind: ErrorKindView,
    pub path: Seq<LocationView>,
}

impl ErrorView {
    /// An error of the given kind with an empty path.
    pub open spec fn fresh(kind: ErrorKindView) -> ErrorView {
        ErrorView { kind, path: Seq::empty() }
    }

    /// The same error, noted to have occurred at `loc`.
    pub open spec fn at(self, loc: LocationView) -> ErrorView {
        ErrorView { kind: self.kind, path: self.path.push(loc) }
    }
}

impl View for Error {
    type V = ErrorView;

    closed spec fn view(&self) -> ErrorView {
        ErrorView { kind: self.kind@, path: self.context@ }
    }
}

impl Error {
    /// A new error of the given kind, with an empty path.
    pub fn new(kind: ErrorKind) -> (r: Error)
        ensures
            r@ == ErrorView::fresh(kind@),
    {
        Error { context: Context::new(), kind }
    }

    /// A custom error, given the description of what went wrong.
    pub fn custom(error: String) -> (r: Error)
        ensures
            r@ == ErrorView::fresh(ErrorKindView::Custom(error@)),
    {
        Error::new(ErrorKind::Custom(error))
    }

    /// A custom error from a string slice.
    pub fn custom_str(error: &str) -> (r: Error)
        ensures
            r@ == ErrorView::fresh(ErrorKindView::Custom(error@)),
    {
        Error::new(ErrorKind::Custom(error.to_owned()))
    }

    /// A custom error from an owned string.
    pub fn custom_string(error: String) -> (r: Error)
        ensures
            r@ == ErrorView::fresh(ErrorKindView::Custom(error@)),
    {
        Error::new(ErrorKind::Custom(error))
    }

    /// What went wrong.
    pub fn kind(&self) -> (r: &ErrorKind)
        ensures
            r@ == self@.kind,
    {
        &self.kind
    }

    /// Where it went wrong.
    pub fn context(&self) -> (r: &Context)
        ensures
            r@ == self@.path,
    {
        &self.context
    }

    /// Note that the error occurred at `loc`.
    pub fn at(self, loc: Location) -> (r: Error)
        ensures
            r@ == self@.at(loc@),
    {
        let mut e = self;
        e.context.push(loc);
        e
    }

    /// Note which sequence index the error occurred at.
    pub fn at_idx(self, idx: usize) -> (r: Error)
        ensures
            r@ == self@.at(LocationView::Idx(idx as nat)),
    {
        self.at(Location::idx(idx))
    }

    /// Note which field the error occurred in.
    pub fn at_field(self, field: String) -> (r: Error)
        ensures
            r@ == self@.at(LocationView::Field(field@)),
    {
        self.at(Location::field(field))
    }

    /// Note which variant the error occurred in.
    pub fn at_variant(self, variant: String) -> (r: Error)
        ensures
            r@ == self@.at(LocationView::Variant(variant@)),
    {
        self.at(Location::variant(variant))
    }
}

} // verus!
