//! Shortcuts to websites and directories.

use vstd::prelude::*;
use vstd::string::StrSliceExecFns;
use vstd::string::StringExecFns;
use crate::models::clone_option;
use crate::text::chars_of;

verus! {

/// A shortcut to a website or a directory.
#[derive(Debug, PartialEq, Eq)]
pub struct QuickAccessItem {
    pub id: String,
    pub name: String,
    pub target: String,
    /// `website` or `directory`.
    pub kind: String,
    pub description: Option<String>,
    pub icon: Option<String>,
    pub encrypted: bool,
    pub hidden: bool,
    pub created_at: i64,
    pub updated_at: i64,
}

impl Clone for QuickAccessItem {
    fn clone(&self) -> (r: Self)
        ensures
            r == *self,
    {
        QuickAccessItem {
            id: self.id.clone(),
            name: self.name.clone(),
            target: self.target.clone(),
            kind: self.kind.clone(),
            description: clone_option(&self.description),
            icon: clone_option(&self.icon),
            encrypted: self.encrypted,
            hidden: self.hidden,
            created_at: self.created_at,
            updated_at: self.updated_at,
        }
    }
}

/// What a caller gives to have a shortcut made.
#[derive(Debug, PartialEq, Eq)]
pub struct CreateQuickAccessDto {
    pub name: String,
    pub target: String,
    pub kind: String,
    pub description: Option<String>,
    pub icon: Option<String>,
    pub encrypted: bool,
    pub hidden: bool,
}

impl Clone for CreateQuickAccessDto {
    fn clone(&self) -> (r: Self)
        ensures
            r == *self,
    {
        CreateQuickAccessDto {
            name: self.name.clone(),
            target: self.target.clone(),
            kind: self.kind.clone(),
            description: clone_option(&self.description),
            icon: clone_option(&self.icon),
            encrypted: self.encrypted,
            hidden: self.hidden,
        }
    }
}

/// The fields of a shortcut that a caller wants changed.
#[derive(Debug, PartialEq, Eq)]
pub struct UpdateQuickAccessDto {
    pub name: Option<String>,
    pub target: Option<String>,
    pub description: Option<String>,
    pub icon: Option<String>,
    pub encrypted: Option<bool>,
    pub hidden: Option<bool>,
}

impl Clone for UpdateQuickAccessDto {
    fn clone(&self) -> (r: Self)
        ensures
            r == *self,
    {
        UpdateQuickAccessDto {
            name: clone_option(&self.name),
            target: clone_option(&self.target),
            description: clone_option(&self.description),
            icon: clone_option(&self.icon),
            encrypted: self.encrypted,
            hidden: self.hidden,
        }
    }
}

/// What the shortcuts keep while the application runs: nothing so far.
#[derive(Debug, Clone, Copy, PartialEq, Eq)]
pub struct ShortcutState {}

impl ShortcutState {
    pub fn new() -> (state: Self)
        ensures
            state == (ShortcutState {  }),
    {
        ShortcutState {  }
    }
}

/// The shortcut after an update: each field that the request gives is taken
/// from it, and the time of the update is recorded.
pub open spec fn updated_item(item: QuickAccessItem, dto: UpdateQuickAccessDto, now: i64) -> QuickAccessItem {
    QuickAccessItem {
        id: item.id,
        name: if dto.name is Some {
            dto.name->0
        } else {
            item.name
        },
        target: if dto.target is Some {
            dto.target->0
        } else {
            item.target
        },
        kind: item.kind,
        description: if dto.description is Some {
            dto.description
        } else {
            item.description
        },
        icon: if dto.icon is Some {
            dto.icon
        } else {
            item.icon
        },
        encrypted: if dto.encrypted is Some {
            dto.encrypted->0
        } else {
            item.encrypted
        },
        hidden: if dto.hidden is Some {
            dto.hidden->0
        } else {
            item.hidden
        },
        created_at: item.created_at,
        updated_at: now,
    }
}

impl QuickAccessItem {
    /// The shortcut that a request creates, with the id and the time given.
    pub fn create(id: String, dto: CreateQuickAccessDto, now: i64) -> (item: Self)
        ensures
            item == (QuickAccessItem {
                id,
                name: dto.name,
                target: dto.target,
                kind: dto.kind,
                description: dto.description,
                icon: dto.icon,
                encrypted: dto.encrypted,
                hidden: dto.hidden,
                created_at: now,
                updated_at: now,
            }),
    {
        QuickAccessItem {
            id,
            name: dto.name,
            target: dto.target,
            kind: dto.kind,
            description: dto.description,
            icon: dto.icon,
            encrypted: dto.encrypted,
            hidden: dto.hidden,
            created_at: now,
            updated_at: now,
        }
    }

    /// The shortcut after an update.
    pub fn update(self, dto: UpdateQuickAccessDto, now: i64) -> (item: Self)
        ensures
            item == updated_item(self, dto, now),
    {
        QuickAccessItem {
            id: self.id,
            name: match dto.name {
                Some(name) => name,
                None => self.name,
            },
            target: match dto.target {
                Some(target) => target,
                None => self.target,
            },
            kind: self.kind,
            description: match dto.description {
                Some(description) => Some(description),
                None => self.description,
            },
            icon: match dto.icon {
                Some(icon) => Some(icon),
                None => self.icon,
            },
            encrypted: match dto.encrypted {
                Some(encrypted) => encrypted,
                None => self.encrypted,
            },
            hidden: match dto.hidden {
                Some(hidden) => hidden,
                None => self.hidden,
            },
            created_at: self.created_at,
            updated_at: now,
        }
    }

    /// Whether the shortcut leads to a website; else it leads to a directory.
    pub fn is_website(&self) -> (website: bool)
        ensures
            website == (self.kind@ == "website"@),
    {
        let kind = chars_of(self.kind.as_str());
        let website = chars_of("website");
        crate::text::chars_eq(&kind, &website)
    }
}

/// Whether a password is the stored one. Without a stored password none matches.
pub fn password_matches(stored: &Option<String>, password: &String) -> (matches: bool)
    ensures
        matches == (stored matches Some(s) && s@ == password@),
{
    match stored {
        Some(s) => *s == *password,
        None => false,
    }
}

/// `text` begins with `prefix`.
pub open spec fn begins_with(text: Seq<char>, prefix: Seq<char>) -> bool {
    prefix.len() <= text.len() && text.subrange(0, prefix.len() as int) == prefix
}

/// The address that is fetched for what a user typed: the same, or with
/// `https://` put before it where it names no protocol.
pub open spec fn website_address(url: Seq<char>) -> Seq<char> {
    if begins_with(url, "http://"@) || begins_with(url, "https://"@) {
        url
    } else {
        "https://"@ + url
    }
}

fn starts_with(text: &Vec<char>, prefix: &str) -> (r: bool)
    ensures
        r == begins_with(text@, prefix@),
{
    let p = chars_of(prefix);
    if p.len() > text.len() {
        return false;
    }
    let mut i: usize = 0;
    while i < p.len()
        invariant
            i <= p.len(),
            p.len() <= text.len(),
            p@ == prefix@,
            forall|k: int| 0 <= k < i ==> text[k] == p[k],
        decreases p.len() - i,
    {
        if text[i] != p[i] {
            assert(text@.subrange(0, p.len() as int)[i as int] != p@[i as int]);
            return false;
        }
        i = i + 1;
    }
    assert(text@.subrange(0, p.len() as int) =~= p@);
    true
}

/// The address that is fetched for what a user typed.
pub fn website_url(url: &str) -> (address: String)
    ensures
        address@ == website_address(url@),
{
    let chars = chars_of(url);
    if starts_with(&chars, "http://") || starts_with(&chars, "https://") {
        String::from_str(url)
    } else {
        String::from_str("https://").concat(url)
    }
}


/// What a page tells of itself.
#[derive(Debug, PartialEq, Eq)]
pub struct WebsiteMetadata {
    pub title: Option<String>,
    pub description: Option<String>,
    pub icon: Option<String>,
}

/// The icon of a page. `named` is the icon that the page names, `resolved`
/// that icon as an address of its own where it could be made one, and
/// `fallback` the address of the site's `favicon.ico` where it has one. An
/// icon that is named with an address of its own stays as it is; one that
/// is named otherwise is resolved if it can be; without a named icon the
/// fallback is taken.
pub open spec fn icon_of(named: Option<String>, resolved: Option<String>, fallback: Option<String>) -> Option<String> {
    match named {
        Some(icon) => if begins_with(icon@, "http"@) || resolved is None {
            named
        } else {
            resolved
        },
        None => fallback,
    }
}

impl WebsiteMetadata {
    /// What a page tells of itself, with its icon as `icon_of` picks it.
    pub fn new(
        title: Option<String>,
        description: Option<String>,
        named_icon: Option<String>,
        resolved_icon: Option<String>,
        fallback_icon: Option<String>,
    ) -> (metadata: Self)
        ensures
            metadata.title == title,
            metadata.description == description,
            metadata.icon == icon_of(named_icon, resolved_icon, fallback_icon),
    {
        let icon = match named_icon {
            Some(icon) => {
                let chars = chars_of(icon.as_str());
                if starts_with(&chars, "http") {
                    Some(icon)
                } else {
                    match resolved_icon {
                        Some(resolved) => Some(resolved),
                        None => Some(icon),
                    }
                }
            },
            None => fallback_icon,
        };
        WebsiteMetadata { title, description, icon }
    }

    /// Whether the icon that a page names has to be resolved against the
    /// address of the page: it has, unless it begins with `http`.
    pub fn needs_resolving(named_icon: &str) -> (needs: bool)
        ensures
            needs == !begins_with(named_icon@, "http"@),
    {
        let chars = chars_of(named_icon);
        !starts_with(&chars, "http")
    }
}

} // verus!
