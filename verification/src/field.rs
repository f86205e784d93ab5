use vstd::prelude::*;

verus! {

/// The content of one grid field: a bomb, or a safe field carrying the
/// number of bombs among its up-to-8 neighbors (0 through 8).
#[derive(Clone, Copy, Debug, PartialEq, Eq, Structural)]
pub enum FieldType {
    BombField,
    SafeField(i64),
}

/// The visibility state of one grid field. `Flagged` and `Visible` are
/// mutually exclusive: a flagged field must be unflagged before it can be
/// revealed.
#[derive(Clone, Copy, Debug, PartialEq, Eq, Structural)]
pub enum Visibility {
    Hidden,
    Visible,
    Flagged,
}

/// One grid field: a content, set once at construction, and a visibility
/// state that changes in response to player actions.
#[derive(Clone, Copy, Debug, PartialEq, Eq, Structural)]
pub struct Field {
    pub visibility: Visibility,
    pub field_type: FieldType,
}

/// A 0-indexed (row, column) pair addressing one field of a board.
#[derive(Clone, Copy, Debug, PartialEq, Eq, Structural)]
pub struct Position {
    pub row: usize,
    pub col: usize,
}

impl Field {
    /// True of a field whose content is a bomb.
    pub open spec fn is_bomb(self) -> bool {
        self.field_type is BombField
    }

    /// True of a field whose state is `Visible`.
    pub open spec fn is_visible(self) -> bool {
        self.visibility is Visible
    }

    /// True of a field whose state is `Hidden`.
    pub open spec fn is_hidden(self) -> bool {
        self.visibility is Hidden
    }

    /// True of a safe field whose neighbor count is zero.
    pub open spec fn is_zero(self) -> bool {
        self.field_type == FieldType::SafeField(0)
    }
}

} // verus!
