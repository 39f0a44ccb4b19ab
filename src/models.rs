//! The data this library works on: connection context, command-line
//! arguments, work items and their relations.
use vstd::prelude::*;

verus! {

/// log's `LevelFilter`, carried through unread as the requested verbosity.
#[verifier::external_type_specification]
#[verifier::external_body]
pub struct ExLevelFilter(log::LevelFilter);

/// Represents a generic response from a bulk endpoint.
#[derive(Debug, Clone, PartialEq, Eq)]
pub struct BulkResponse<T> {
    /// Collection of entities from a bulk endpoint.
    pub value: Vec<T>,
}

/// Arguments of the command-line tool.
#[derive(Debug)]
pub struct CliArguments {
    /// Feature work item identifier.
    pub feature_work_item_id: u32,
    /// Path of the context file.
    pub context_file_path: String,
    /// Level of logging.
    pub log_level: log::LevelFilter,
    /// Whether every raw response body is logged.
    pub log_responses: bool,
}

/// Organization, project and credentials used to reach the API.
#[derive(Debug, Clone, PartialEq, Eq)]
pub struct Context {
    /// Organization that work items are under.
    pub organization_name: String,
    /// Personal access token used to authenticate requests.
    pub personal_access_token: String,
    /// Organization's project that work items are under.
    pub project_name: String,
    /// User's email address used to authenticate requests.
    pub user_email: String,
}

/// A configuration file, with the same content as a `Context` under
/// shorter names.
#[derive(Debug, Clone, PartialEq, Eq)]
pub struct Configuration {
    /// Personal access token used to authenticate requests.
    pub access_token: String,
    /// Organization that work items are under.
    pub organization: String,
    /// Organization's project that work items are under.
    pub project: String,
    /// User's email address used to authenticate requests.
    pub user: String,
}

impl Configuration {
    /// The context that this configuration describes.
    pub fn into_context(self) -> (r: Context)
        ensures
            r.organization_name == self.organization,
            r.personal_access_token == self.access_token,
            r.project_name == self.project,
            r.user_email == self.user,
    {
        Context {
            organization_name: self.organization,
            personal_access_token: self.access_token,
            project_name: self.project,
            user_email: self.user,
        }
    }
}

/// A work item: its identifier, its fields and its relations, in the order
/// in which the API listed them.
#[derive(Debug, Clone, PartialEq, Eq)]
pub struct WorkItem {
    /// Work item identifier.
    pub id: u32,
    /// Collection of work item fields.
    pub fields: WorkItemFields,
    /// Collection of related work items.
    pub relations: Vec<WorkItemRelation>,
}

/// The fields of a work item that this library reads.
#[derive(Debug, Clone, PartialEq, Eq)]
pub struct WorkItemFields {
    /// Work item title.
    pub title: String,
    /// Work item type, such as `Feature` or `Task`.
    pub work_item_type: String,
}

/// A typed link to another work item.
#[derive(Debug, Clone, PartialEq, Eq)]
pub struct WorkItemRelation {
    /// Collection of work item relationship attributes.
    pub attributes: WorkItemRelationAttributes,
    /// Direct link to the related work item; its last path segment is the
    /// related item's identifier.
    pub url: String,
}

/// The attributes of a relation.
#[derive(Debug, Clone, PartialEq, Eq)]
pub struct WorkItemRelationAttributes {
    /// Work item relationship type, such as `Child` or `Parent`.
    pub relation_type: String,
}

/// A relation as plain values.
pub struct RelationModel {
    pub relation_type: Seq<char>,
    pub url: Seq<char>,
}

/// A work item as plain values.
pub struct ItemModel {
    pub id: u32,
    pub title: Seq<char>,
    pub work_item_type: Seq<char>,
    pub relations: Seq<RelationModel>,
}

impl View for WorkItemRelation {
    type V = RelationModel;

    open spec fn view(&self) -> RelationModel {
        RelationModel { relation_type: self.attributes.relation_type@, url: self.url@ }
    }
}

impl View for WorkItem {
    type V = ItemModel;

    open spec fn view(&self) -> ItemModel {
        ItemModel {
            id: self.id,
            title: self.fields.title@,
            work_item_type: self.fields.work_item_type@,
            relations: self.relations@.map_values(|r: WorkItemRelation| r@),
        }
    }
}

/// The models of a sequence of work items.
pub open spec fn item_models(items: Seq<WorkItem>) -> Seq<ItemModel> {
    items.map_values(|w: WorkItem| w@)
}

} // verus!
