//! Observation Schema identity: a non-blank name and a version. Schemas
//! evolve by versioning; a name at two versions is two identities.

use vstd::prelude::*;
use crate::text::{blank, concat3, fmt_u64, str_eq, is_blank, to_owned_string, decimal};

verus! {

/// Errors that can occur when constructing an [`ObservationSchema`].
#[derive(Debug, Clone, PartialEq, Eq)]
pub enum SchemaError {
    /// The schema name was blank.
    EmptyName,
}

impl SchemaError {
    /// The human-readable message.
    pub fn to_string(&self) -> (s: String)
        ensures
            s@ == "observation schema name must not be empty"@,
    {
        to_owned_string("observation schema name must not be empty")
    }
}

/// Identifies an Observation Schema by name and version.
#[derive(Debug, PartialEq, Eq, Hash)]
pub struct ObservationSchema {
    name: String,
    version: u32,
}

/// The frozen canonical schemas: `(name, version)` pairs Evo accepts.
pub open spec fn canonical_pair(name: Seq<char>, version: u32) -> bool {
    ||| (name == "OBS-WINDOW-FOCUS-GAINED"@ && 1 <= version <= 3)
    ||| (version == 1 && (name == "OBS-FILE-SAVED"@ || name == "OBS-URL-NAVIGATED"@
        || name == "OBS-COMMIT-MADE"@ || name == "OBS-WORK-DESIGNATED"@
        || name == "OBS-REPOSITORY-MEMBERSHIP"@ || name == "OBS-WORK-GROUPED"@
        || name == "OBS-CONTINUATION-SURFACE"@ || name == "OBS-INPUT-ACTIVITY"@))
}

/// The reference-only evidence classes.
pub open spec fn reference_only_pair(name: Seq<char>, version: u32) -> bool {
    version == 1 && (name == "OBS-WORK-DESIGNATED"@ || name == "OBS-REPOSITORY-MEMBERSHIP"@
        || name == "OBS-WORK-GROUPED"@ || name == "OBS-CONTINUATION-SURFACE"@)
}

/// The schemas that carry the person's explicit word.
pub open spec fn user_declaration_pair(name: Seq<char>, version: u32) -> bool {
    version == 1 && (name == "OBS-WORK-DESIGNATED"@ || name == "OBS-WORK-GROUPED"@
        || name == "OBS-CONTINUATION-SURFACE"@)
}

/// The canonical fact name of each canonical schema.
pub open spec fn fact_name_of(name: Seq<char>, version: u32) -> Option<Seq<char>> {
    if name == "OBS-WINDOW-FOCUS-GAINED"@ && 1 <= version <= 3 {
        Some("WindowFocusGained"@)
    } else if version != 1 {
        None
    } else if name == "OBS-FILE-SAVED"@ {
        Some("FileSaved"@)
    } else if name == "OBS-URL-NAVIGATED"@ {
        Some("URLNavigated"@)
    } else if name == "OBS-COMMIT-MADE"@ {
        Some("CommitMade"@)
    } else if name == "OBS-WORK-DESIGNATED"@ {
        Some("WorkDesignated"@)
    } else if name == "OBS-REPOSITORY-MEMBERSHIP"@ {
        Some("RepositoryMembership"@)
    } else if name == "OBS-WORK-GROUPED"@ {
        Some("WorkGrouped"@)
    } else if name == "OBS-CONTINUATION-SURFACE"@ {
        Some("ContinuationSurface"@)
    } else if name == "OBS-INPUT-ACTIVITY"@ {
        Some("InputActivity"@)
    } else {
        None
    }
}

impl ObservationSchema {
    /// The schema name, as characters.
    pub closed spec fn spec_name(&self) -> Seq<char> {
        self.name@
    }

    /// The schema version.
    pub closed spec fn spec_version(&self) -> u32 {
        self.version
    }

    /// Two schemas denote the same identity.
    pub open spec fn same_as(&self, other: &ObservationSchema) -> bool {
        self.spec_name() == other.spec_name() && self.spec_version() == other.spec_version()
    }

    #[verifier::type_invariant]
    spec fn inv(&self) -> bool {
        !blank(self.name@)
    }

    /// Constructs a schema; a blank name is refused.
    pub fn new(name: &str, version: u32) -> (r: Result<Self, SchemaError>)
        ensures
            blank(name@) <==> r is Err,
            r matches Ok(s) ==> s.spec_name() == name@ && s.spec_version() == version,
            r matches Err(e) ==> e == SchemaError::EmptyName,
    {
        if is_blank(name) {
            return Err(SchemaError::EmptyName);
        }
        Ok(ObservationSchema { name: to_owned_string(name), version })
    }

    fn frozen(name: &str, version: u32) -> (r: Self)
        requires
            name@.len() > 0,
            !crate::text::is_ws(name@[0]),
        ensures
            r.spec_name() == name@,
            r.spec_version() == version,
    {
        ObservationSchema { name: to_owned_string(name), version }
    }

    /// An identical copy.
    pub fn copy(&self) -> (r: Self)
        ensures
            r == *self,
    {
        proof {
            use_type_invariant(self);
        }
        ObservationSchema { name: self.name.clone(), version: self.version }
    }

    /// The frozen schema for `WindowFocusGained`.
    pub fn window_focus_gained_v1() -> (r: Self)
        ensures
            r.spec_name() == "OBS-WINDOW-FOCUS-GAINED"@,
            r.spec_version() == 1,
    {
        proof {
            reveal_strlit("OBS-WINDOW-FOCUS-GAINED");
        }
        Self::frozen("OBS-WINDOW-FOCUS-GAINED", 1)
    }

    /// The v2 schema for `WindowFocusGained`.
    pub fn window_focus_gained_v2() -> (r: Self)
        ensures
            r.spec_name() == "OBS-WINDOW-FOCUS-GAINED"@,
            r.spec_version() == 2,
    {
        proof {
            reveal_strlit("OBS-WINDOW-FOCUS-GAINED");
        }
        Self::frozen("OBS-WINDOW-FOCUS-GAINED", 2)
    }

    /// The v3 schema for `WindowFocusGained`.
    pub fn window_focus_gained_v3() -> (r: Self)
        ensures
            r.spec_name() == "OBS-WINDOW-FOCUS-GAINED"@,
            r.spec_version() == 3,
    {
        proof {
            reveal_strlit("OBS-WINDOW-FOCUS-GAINED");
        }
        Self::frozen("OBS-WINDOW-FOCUS-GAINED", 3)
    }

    /// The frozen schema for `FileSaved`.
    pub fn file_saved_v1() -> (r: Self)
        ensures
            r.spec_name() == "OBS-FILE-SAVED"@,
            r.spec_version() == 1,
    {
        proof {
            reveal_strlit("OBS-FILE-SAVED");
        }
        Self::frozen("OBS-FILE-SAVED", 1)
    }

    /// The frozen schema for `URLNavigated`.
    pub fn url_navigated_v1() -> (r: Self)
        ensures
            r.spec_name() == "OBS-URL-NAVIGATED"@,
            r.spec_version() == 1,
    {
        proof {
            reveal_strlit("OBS-URL-NAVIGATED");
        }
        Self::frozen("OBS-URL-NAVIGATED", 1)
    }

    /// The frozen schema for `CommitMade`.
    pub fn commit_made_v1() -> (r: Self)
        ensures
            r.spec_name() == "OBS-COMMIT-MADE"@,
            r.spec_version() == 1,
    {
        proof {
            reveal_strlit("OBS-COMMIT-MADE");
        }
        Self::frozen("OBS-COMMIT-MADE", 1)
    }

    /// The frozen schema for `WorkDesignated`.
    pub fn work_designated_v1() -> (r: Self)
        ensures
            r.spec_name() == "OBS-WORK-DESIGNATED"@,
            r.spec_version() == 1,
    {
        proof {
            reveal_strlit("OBS-WORK-DESIGNATED");
        }
        Self::frozen("OBS-WORK-DESIGNATED", 1)
    }

    /// The frozen schema for `RepositoryMembership`.
    pub fn repository_membership_v1() -> (r: Self)
        ensures
            r.spec_name() == "OBS-REPOSITORY-MEMBERSHIP"@,
            r.spec_version() == 1,
    {
        proof {
            reveal_strlit("OBS-REPOSITORY-MEMBERSHIP");
        }
        Self::frozen("OBS-REPOSITORY-MEMBERSHIP", 1)
    }

    /// The frozen schema for `WorkGrouped`.
    pub fn work_grouped_v1() -> (r: Self)
        ensures
            r.spec_name() == "OBS-WORK-GROUPED"@,
            r.spec_version() == 1,
    {
        proof {
            reveal_strlit("OBS-WORK-GROUPED");
        }
        Self::frozen("OBS-WORK-GROUPED", 1)
    }

    /// The frozen schema for `ContinuationSurface`.
    pub fn continuation_surface_v1() -> (r: Self)
        ensures
            r.spec_name() == "OBS-CONTINUATION-SURFACE"@,
            r.spec_version() == 1,
    {
        proof {
            reveal_strlit("OBS-CONTINUATION-SURFACE");
        }
        Self::frozen("OBS-CONTINUATION-SURFACE", 1)
    }

    /// The frozen schema for `InputActivity`.
    pub fn input_activity_v1() -> (r: Self)
        ensures
            r.spec_name() == "OBS-INPUT-ACTIVITY"@,
            r.spec_version() == 1,
    {
        proof {
            reveal_strlit("OBS-INPUT-ACTIVITY");
        }
        Self::frozen("OBS-INPUT-ACTIVITY", 1)
    }

    fn name_is(&self, lit: &str) -> (r: bool)
        ensures
            r == (self.spec_name() == lit@),
    {
        str_eq(self.name.as_str(), lit)
    }

    /// Whether this schema is one of the frozen canonical schemas.
    pub fn is_canonical(&self) -> (r: bool)
        ensures
            r == canonical_pair(self.spec_name(), self.spec_version()),
    {
        (self.name_is("OBS-WINDOW-FOCUS-GAINED") && 1 <= self.version && self.version <= 3)
            || (self.version == 1 && (self.name_is("OBS-FILE-SAVED") || self.name_is(
            "OBS-URL-NAVIGATED",
        ) || self.name_is("OBS-COMMIT-MADE") || self.name_is("OBS-WORK-DESIGNATED")
            || self.name_is("OBS-REPOSITORY-MEMBERSHIP") || self.name_is("OBS-WORK-GROUPED")
            || self.name_is("OBS-CONTINUATION-SURFACE") || self.name_is("OBS-INPUT-ACTIVITY")))
    }

    /// Whether this schema is a reference-only evidence class.
    pub fn is_reference_only(&self) -> (r: bool)
        ensures
            r == reference_only_pair(self.spec_name(), self.spec_version()),
    {
        self.version == 1 && (self.name_is("OBS-WORK-DESIGNATED") || self.name_is(
            "OBS-REPOSITORY-MEMBERSHIP",
        ) || self.name_is("OBS-WORK-GROUPED") || self.name_is("OBS-CONTINUATION-SURFACE"))
    }

    /// Whether this schema carries the person's explicit word.
    pub fn is_user_declaration(&self) -> (r: bool)
        ensures
            r == user_declaration_pair(self.spec_name(), self.spec_version()),
    {
        self.version == 1 && (self.name_is("OBS-WORK-DESIGNATED") || self.name_is(
            "OBS-WORK-GROUPED",
        ) || self.name_is("OBS-CONTINUATION-SURFACE"))
    }

    /// The canonical fact name associated with this schema.
    pub fn canonical_fact_name(&self) -> (r: Option<&'static str>)
        ensures
            r is Some == fact_name_of(self.spec_name(), self.spec_version()) is Some,
            r matches Some(f) ==> f@ == fact_name_of(self.spec_name(), self.spec_version())->0,
    {
        if self.name_is("OBS-WINDOW-FOCUS-GAINED") && 1 <= self.version && self.version <= 3 {
            Some("WindowFocusGained")
        } else if self.version != 1 {
            None
        } else if self.name_is("OBS-FILE-SAVED") {
            Some("FileSaved")
        } else if self.name_is("OBS-URL-NAVIGATED") {
            Some("URLNavigated")
        } else if self.name_is("OBS-COMMIT-MADE") {
            Some("CommitMade")
        } else if self.name_is("OBS-WORK-DESIGNATED") {
            Some("WorkDesignated")
        } else if self.name_is("OBS-REPOSITORY-MEMBERSHIP") {
            Some("RepositoryMembership")
        } else if self.name_is("OBS-WORK-GROUPED") {
            Some("WorkGrouped")
        } else if self.name_is("OBS-CONTINUATION-SURFACE") {
            Some("ContinuationSurface")
        } else if self.name_is("OBS-INPUT-ACTIVITY") {
            Some("InputActivity")
        } else {
            None
        }
    }

    /// The schema name.
    pub fn name(&self) -> (r: &str)
        ensures
            r@ == self.spec_name(),
            !blank(r@),
    {
        proof {
            use_type_invariant(self);
        }
        self.name.as_str()
    }

    /// The schema version.
    pub fn version(&self) -> (r: u32)
        ensures
            r == self.spec_version(),
    {
        self.version
    }

    /// Whether `self` and `other` are the same schema identity.
    pub fn same(&self, other: &ObservationSchema) -> (r: bool)
        ensures
            r == self.same_as(other),
    {
        self.version == other.version && str_eq(self.name.as_str(), other.name.as_str())
    }

    /// The stable `name/version` rendering.
    pub fn to_string(&self) -> (s: String)
        ensures
            s@ == self.spec_name() + "/"@ + decimal(self.spec_version() as nat),
    {
        let v = fmt_u64(self.version as u64);
        concat3(self.name.as_str(), "/", v.as_str())
    }
}

impl Clone for ObservationSchema {
    fn clone(&self) -> (r: Self)
        ensures
            r == *self,
    {
        self.copy()
    }
}

} // verus!
