//! The records that the library works on.

use vstd::prelude::*;

verus! {

/// A copy of an optional string.
pub fn clone_option(o: &Option<String>) -> (r: Option<String>)
    ensures
        r == *o,
{
    match o {
        Some(s) => Some(s.clone()),
        None => None,
    }
}

/// A node of the category tree as it is stored: it names its parent, and a
/// category without a parent is a root.
#[derive(Debug, PartialEq, Eq)]
pub struct Category {
    pub id: i64,
    pub name: String,
    pub description: Option<String>,
    pub icon: Option<String>,
    pub color: Option<String>,
    pub parent_id: Option<i64>,
    pub sort_order: i32,
    pub has_password: bool,
    pub created_at: String,
    pub updated_at: String,
}

impl Clone for Category {
    fn clone(&self) -> (r: Self)
        ensures
            r == *self,
    {
        Category {
            id: self.id,
            name: self.name.clone(),
            description: clone_option(&self.description),
            icon: clone_option(&self.icon),
            color: clone_option(&self.color),
            parent_id: self.parent_id,
            sort_order: self.sort_order,
            has_password: self.has_password,
            created_at: self.created_at.clone(),
            updated_at: self.updated_at.clone(),
        }
    }
}

/// A category with the subtrees of its children and its two counts.
#[derive(Debug, PartialEq, Eq)]
pub struct CategoryNode {
    pub category: Category,
    pub children: Vec<CategoryNode>,
    pub directory_count: i32,
    pub resource_count: i32,
}

/// A directory bound to a category.
#[derive(Debug, PartialEq, Eq)]
pub struct DirectoryBinding {
    pub id: i64,
    pub category_id: i64,
    pub directory_path: String,
    pub created_at: String,
}

impl Clone for DirectoryBinding {
    fn clone(&self) -> (r: Self)
        ensures
            r == *self,
    {
        DirectoryBinding {
            id: self.id,
            category_id: self.category_id,
            directory_path: self.directory_path.clone(),
            created_at: self.created_at.clone(),
        }
    }
}

/// A file found by a scan.
#[derive(Debug, PartialEq, Eq)]
pub struct ResourceItem {
    pub id: i64,
    pub category_id: i64,
    pub file_name: String,
    pub file_path: String,
    pub file_size: i64,
    pub file_type: String,
    pub modified_at: String,
    pub scanned_at: String,
}

/// What a `ResourceItem` holds, its strings as texts.
pub struct ResourceItemView {
    pub id: i64,
    pub category_id: i64,
    pub file_name: Seq<char>,
    pub file_path: Seq<char>,
    pub file_size: i64,
    pub file_type: Seq<char>,
    pub modified_at: Seq<char>,
    pub scanned_at: Seq<char>,
}

impl View for ResourceItem {
    type V = ResourceItemView;

    open spec fn view(&self) -> ResourceItemView {
        ResourceItemView {
            id: self.id,
            category_id: self.category_id,
            file_name: self.file_name@,
            file_path: self.file_path@,
            file_size: self.file_size,
            file_type: self.file_type@,
            modified_at: self.modified_at@,
            scanned_at: self.scanned_at@,
        }
    }
}

impl Clone for ResourceItem {
    fn clone(&self) -> (r: Self)
        ensures
            r == *self,
    {
        ResourceItem {
            id: self.id,
            category_id: self.category_id,
            file_name: self.file_name.clone(),
            file_path: self.file_path.clone(),
            file_size: self.file_size,
            file_type: self.file_type.clone(),
            modified_at: self.modified_at.clone(),
            scanned_at: self.scanned_at.clone(),
        }
    }
}

/// The views of a list of resources.
pub open spec fn resource_views(items: Seq<ResourceItem>) -> Seq<ResourceItemView> {
    items.map_values(|r: ResourceItem| r@)
}

/// A record of something the application did.
#[derive(Debug, PartialEq, Eq)]
pub struct OperationLog {
    pub id: i64,
    pub operation_type: String,
    pub operation_detail: Option<String>,
    pub operation_result: Option<String>,
    pub created_at: String,
}

impl Clone for OperationLog {
    fn clone(&self) -> (r: Self)
        ensures
            r == *self,
    {
        OperationLog {
            id: self.id,
            operation_type: self.operation_type.clone(),
            operation_detail: clone_option(&self.operation_detail),
            operation_result: clone_option(&self.operation_result),
            created_at: self.created_at.clone(),
        }
    }
}

/// One stored setting.
#[derive(Debug, PartialEq, Eq)]
pub struct AppSetting {
    pub key: String,
    pub value: String,
    pub updated_at: String,
}

impl Clone for AppSetting {
    fn clone(&self) -> (r: Self)
        ensures
            r == *self,
    {
        AppSetting {
            key: self.key.clone(),
            value: self.value.clone(),
            updated_at: self.updated_at.clone(),
        }
    }
}

/// What a caller gives to have a category made.
#[derive(Debug, PartialEq, Eq)]
pub struct CreateCategoryRequest {
    pub name: String,
    pub description: Option<String>,
    pub icon: Option<String>,
    pub color: Option<String>,
    pub parent_id: Option<i64>,
}

impl Clone for CreateCategoryRequest {
    fn clone(&self) -> (r: Self)
        ensures
            r == *self,
    {
        CreateCategoryRequest {
            name: self.name.clone(),
            description: clone_option(&self.description),
            icon: clone_option(&self.icon),
            color: clone_option(&self.color),
            parent_id: self.parent_id,
        }
    }
}

/// The fields of a category that a caller wants changed; `None` leaves a
/// field as it is.
#[derive(Debug, PartialEq, Eq)]
pub struct UpdateCategoryRequest {
    pub name: Option<String>,
    pub description: Option<String>,
    pub icon: Option<String>,
    pub color: Option<String>,
    pub sort_order: Option<i32>,
}

impl Clone for UpdateCategoryRequest {
    fn clone(&self) -> (r: Self)
        ensures
            r == *self,
    {
        UpdateCategoryRequest {
            name: clone_option(&self.name),
            description: clone_option(&self.description),
            icon: clone_option(&self.icon),
            color: clone_option(&self.color),
            sort_order: self.sort_order,
        }
    }
}

/// What becomes of the children of a deleted category.
#[derive(Debug, Clone, Copy, PartialEq, Eq)]
pub enum DeleteStrategy {
    /// The whole subtree goes.
    DeleteAll,
    /// The children move up to the parent of the deleted category.
    PromoteChildren,
}

/// The answer to one request for a batch of a scan.
#[derive(Debug, PartialEq, Eq)]
pub struct ScanProgress {
    pub total_files: i64,
    pub scanned_files: i64,
    pub current_batch: Vec<ResourceItem>,
    pub is_complete: bool,
}


/// What a network interface has carried: since the last reading, and in all.
#[derive(Debug, PartialEq, Eq)]
pub struct NetworkInfo {
    pub name: String,
    pub received: u64,
    pub transmitted: u64,
    pub total_received: u64,
    pub total_transmitted: u64,
    pub mac_address: String,
}

/// A fan and its speed in turns a minute.
#[derive(Debug, PartialEq, Eq)]
pub struct FanInfo {
    pub label: String,
    pub rpm: u32,
}

/// The operating system of the machine.
#[derive(Debug, PartialEq, Eq)]
pub struct OsInfo {
    pub name: String,
    pub version: String,
    pub kernel_version: String,
    pub long_version: Option<String>,
    pub arch: String,
}

} // verus!
