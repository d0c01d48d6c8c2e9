//! What a snapshot records about one path.
use vstd::prelude::*;

verus! {

/// Why the content of a path is not in the snapshot.
#[derive(Debug, Clone, Copy, PartialEq, Eq, Structural)]
pub enum Reason {
    Binary,
    SizeLimit,
    TotalLimit,
    SpecialFile,
    PermissionDenied,
    Vanished,
    WouldBlock,
    IoError,
}

impl Reason {
    /// The name under which a reason is written.
    pub open spec fn spelling(self) -> Seq<char> {
        match self {
            Reason::Binary => "binary"@,
            Reason::SizeLimit => "size_limit"@,
            Reason::TotalLimit => "total_limit"@,
            Reason::SpecialFile => "special_file"@,
            Reason::PermissionDenied => "permission_denied"@,
            Reason::Vanished => "vanished"@,
            Reason::WouldBlock => "would_block"@,
            Reason::IoError => "io_error"@,
        }
    }

    pub fn as_str(&self) -> (name: &'static str)
        ensures
            name@ == self.spelling(),
            reason_named(name@) == Some(*self),
    {
        proof {
            reasons_are_told_apart(*self);
        }
        match self {
            Reason::Binary => "binary",
            Reason::SizeLimit => "size_limit",
            Reason::TotalLimit => "total_limit",
            Reason::SpecialFile => "special_file",
            Reason::PermissionDenied => "permission_denied",
            Reason::Vanished => "vanished",
            Reason::WouldBlock => "would_block",
            Reason::IoError => "io_error",
        }
    }
}

/// What a snapshot holds for one path.
#[derive(Debug, PartialEq, Eq)]
pub enum Entry {
    /// The whole content of a file.
    Captured { content: String },
    /// A file that the capture policy leaves out.
    Excluded { reason: Reason },
    /// A path that could not be read.
    Unavailable { reason: Reason },
    /// A symbolic link, which is not followed.
    Symlink { target: String },
}

/// What an [`Entry`] says.
pub enum EntryView {
    Captured { content: Seq<char> },
    Excluded { reason: Reason },
    Unavailable { reason: Reason },
    Symlink { target: Seq<char> },
}

impl View for Entry {
    type V = EntryView;

    open spec fn view(&self) -> EntryView {
        match self {
            Entry::Captured { content } => EntryView::Captured { content: content@ },
            Entry::Excluded { reason } => EntryView::Excluded { reason: *reason },
            Entry::Unavailable { reason } => EntryView::Unavailable { reason: *reason },
            Entry::Symlink { target } => EntryView::Symlink { target: target@ },
        }
    }
}

impl EntryView {
    /// The name of the kind of entry.
    pub open spec fn status(self) -> Seq<char> {
        match self {
            EntryView::Captured { .. } => "captured"@,
            EntryView::Excluded { .. } => "excluded"@,
            EntryView::Unavailable { .. } => "unavailable"@,
            EntryView::Symlink { .. } => "symlink"@,
        }
    }

    /// The fields under which an entry is written, in order, each with its value.
    pub open spec fn fields(self) -> Seq<(Seq<char>, Seq<char>)> {
        seq![
            ("status"@, self.status()),
            match self {
                EntryView::Captured { content } => ("content"@, content),
                EntryView::Excluded { reason } => ("reason"@, reason.spelling()),
                EntryView::Unavailable { reason } => ("reason"@, reason.spelling()),
                EntryView::Symlink { target } => ("target"@, target),
            },
        ]
    }
}

/// The reason that is written as `name`.
pub open spec fn reason_named(name: Seq<char>) -> Option<Reason> {
    if name == "binary"@ {
        Some(Reason::Binary)
    } else if name == "size_limit"@ {
        Some(Reason::SizeLimit)
    } else if name == "total_limit"@ {
        Some(Reason::TotalLimit)
    } else if name == "special_file"@ {
        Some(Reason::SpecialFile)
    } else if name == "permission_denied"@ {
        Some(Reason::PermissionDenied)
    } else if name == "vanished"@ {
        Some(Reason::Vanished)
    } else if name == "would_block"@ {
        Some(Reason::WouldBlock)
    } else if name == "io_error"@ {
        Some(Reason::IoError)
    } else {
        None
    }
}

/// The entry that is written in `fields`: its kind stands under `status`, and what it holds
/// under the name that belongs to the kind.
pub open spec fn read_back(fields: Seq<(Seq<char>, Seq<char>)>) -> Option<EntryView> {
    if fields.len() != 2 || fields[0].0 != "status"@ {
        None
    } else {
        let kind = fields[0].1;
        let (name, value) = fields[1];
        if kind == "captured"@ && name == "content"@ {
            Some(EntryView::Captured { content: value })
        } else if kind == "symlink"@ && name == "target"@ {
            Some(EntryView::Symlink { target: value })
        } else if kind == "excluded"@ && name == "reason"@ {
            match reason_named(value) {
                Some(reason) => Some(EntryView::Excluded { reason }),
                None => None,
            }
        } else if kind == "unavailable"@ && name == "reason"@ {
            match reason_named(value) {
                Some(reason) => Some(EntryView::Unavailable { reason }),
                None => None,
            }
        } else {
            None
        }
    }
}

/// A reason can be told from its name.
pub proof fn reasons_are_told_apart(reason: Reason)
    ensures
        reason_named(reason.spelling()) == Some(reason),
{
    reveal_strlit("binary");
    reveal_strlit("size_limit");
    reveal_strlit("total_limit");
    reveal_strlit("special_file");
    reveal_strlit("permission_denied");
    reveal_strlit("vanished");
    reveal_strlit("would_block");
    reveal_strlit("io_error");
    assert("binary"@.len() == 6 && "size_limit"@.len() == 10 && "total_limit"@.len() == 11);
    assert("special_file"@.len() == 12 && "permission_denied"@.len() == 17);
    assert("vanished"@.len() == 8 && "would_block"@.len() == 11 && "io_error"@.len() == 8);
    assert("would_block"@[0] == 'w' && "total_limit"@[0] == 't');
    assert("vanished"@[0] == 'v' && "io_error"@[0] == 'i');
}

/// From the fields under which an entry is written the entry can be read back, all of it:
/// the whole content of a file, the whole target of a link, and the reason.
pub proof fn fields_can_be_read_back(entry: EntryView)
    ensures
        read_back(entry.fields()) == Some(entry),
{
    match entry {
        EntryView::Excluded { reason } | EntryView::Unavailable { reason } => {
            reasons_are_told_apart(reason);
        },
        _ => {},
    }
    reveal_strlit("captured");
    reveal_strlit("symlink");
    reveal_strlit("excluded");
    reveal_strlit("unavailable");
    reveal_strlit("content");
    reveal_strlit("target");
    reveal_strlit("reason");
    assert("captured"@[0] == 'c');
    assert("excluded"@[0] == 'e');
    assert("content"@[0] == 'c');
    assert("target"@[0] == 't');
    assert("reason"@[0] == 'r');
}

/// Entries that are written in the same way are the same.
pub proof fn entries_are_told_apart(a: EntryView, b: EntryView)
    requires
        a.fields() == b.fields(),
    ensures
        a == b,
{
    fields_can_be_read_back(a);
    fields_can_be_read_back(b);
}

/// An entry says all that it holds.
pub proof fn entry_says_what_it_holds(entry: Entry)
    ensures
        entry matches Entry::Captured { content } ==> entry@ == (EntryView::Captured {
            content: content@,
        }),
        entry matches Entry::Excluded { reason } ==> entry@ == (EntryView::Excluded { reason }),
        entry matches Entry::Unavailable { reason } ==> entry@ == (EntryView::Unavailable {
            reason,
        }),
        entry matches Entry::Symlink { target } ==> entry@ == (EntryView::Symlink {
            target: target@,
        }),
{
}

impl Entry {
    pub fn status(&self) -> (name: &'static str)
        ensures
            name@ == self@.status(),
    {
        match self {
            Entry::Captured { .. } => "captured",
            Entry::Excluded { .. } => "excluded",
            Entry::Unavailable { .. } => "unavailable",
            Entry::Symlink { .. } => "symlink",
        }
    }

    /// The fields under which the entry is written, in order, each with its value.
    pub fn into_fields(self) -> (fields: Vec<(&'static str, String)>)
        ensures
            fields@.map_values(|field: (&'static str, String)| (field.0@, field.1@))
                == self@.fields(),
            read_back(fields@.map_values(|field: (&'static str, String)| (field.0@, field.1@)))
                == Some(self@),
            fields@.len() == 2,
            fields@[0].0@ == "status"@,
            match self {
                Entry::Captured { content } => fields@[0].1@ == "captured"@ && fields@[1].0@
                    == "content"@ && fields@[1].1@ == content@,
                Entry::Excluded { reason } => fields@[0].1@ == "excluded"@ && fields@[1].0@
                    == "reason"@ && reason_named(fields@[1].1@) == Some(reason),
                Entry::Unavailable { reason } => fields@[0].1@ == "unavailable"@ && fields@[1].0@
                    == "reason"@ && reason_named(fields@[1].1@) == Some(reason),
                Entry::Symlink { target } => fields@[0].1@ == "symlink"@ && fields@[1].0@
                    == "target"@ && fields@[1].1@ == target@,
            },
    {
        proof {
            fields_can_be_read_back(self@);
            match self {
                Entry::Excluded { reason } | Entry::Unavailable { reason } => {
                    reasons_are_told_apart(reason);
                },
                _ => {},
            }
        }
        let status: &'static str = self.status();
        let mut fields: Vec<(&'static str, String)> = Vec::new();
        fields.push(("status", status.to_owned()));
        match self {
            Entry::Captured { content } => {
                fields.push(("content", content));
            },
            Entry::Excluded { reason } | Entry::Unavailable { reason } => {
                fields.push(("reason", reason.as_str().to_owned()));
            },
            Entry::Symlink { target } => {
                fields.push(("target", target));
            },
        }
        fields
    }
}

} // verus!
