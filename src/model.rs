use vstd::prelude::*;

verus! {

/// An item category, shown at `position` in the list of categories.
#[derive(Debug)]
pub struct Category {
    pub id: u64,
    pub name: String,
    pub position: u64,
    pub created_at: i64,
    pub updated_at: i64,
}

/// A grocery item; `category_id` is `None` or names an existing category.
#[derive(Debug)]
pub struct Entry {
    pub id: u64,
    pub name: String,
    pub category_id: Option<u64>,
    pub completed: bool,
    pub position: u64,
    pub created_at: i64,
    pub updated_at: i64,
}

/// The failures of the category and entry services.
#[derive(Debug, PartialEq, Eq, Structural, Clone, Copy)]
pub enum ServiceError {
    /// Bad input: an empty name, an unknown category, unknown or repeated ids.
    Validation,
    /// No record has the given id.
    NotFound,
}

impl ServiceError {
    /// The HTTP status that answers this error.
    pub fn status_code(&self) -> (r: u16)
        ensures
            *self == ServiceError::Validation ==> r == 400,
            *self == ServiceError::NotFound ==> r == 404,
    {
        match self {
            ServiceError::Validation => 400,
            ServiceError::NotFound => 404,
        }
    }
}

impl Category {
    /// A field-by-field copy.
    pub fn duplicate(&self) -> (r: Category)
        ensures
            r == *self,
    {
        Category {
            id: self.id,
            name: self.name.clone(),
            position: self.position,
            created_at: self.created_at,
            updated_at: self.updated_at,
        }
    }
}

impl Entry {
    /// A field-by-field copy.
    pub fn duplicate(&self) -> (r: Entry)
        ensures
            r == *self,
    {
        Entry {
            id: self.id,
            name: self.name.clone(),
            category_id: self.category_id,
            completed: self.completed,
            position: self.position,
            created_at: self.created_at,
            updated_at: self.updated_at,
        }
    }
}

/// The requested changes of an entry update; `None` leaves a field as it is.
pub struct EntryChanges {
    pub name: Option<String>,
    pub category_id: Option<Option<u64>>,
    pub completed: Option<bool>,
}

} // verus!
