//! Client-side logic for assembling a work-item hierarchy from a project
//! tracking REST API: request construction, response decoding, and the
//! breadth-first resolution of a root item's descendants.
pub mod client;
pub mod error;
pub mod json;
pub mod models;
pub mod resolver;
pub mod text;

pub use client::{check_status, AzureDevOpsClient};
pub use error::ClientError;
pub use json::{decode_bulk, decode_work_item, JsonValue};
pub use models::{
    BulkResponse, CliArguments, Configuration, Context, WorkItem, WorkItemFields,
    WorkItemRelation, WorkItemRelationAttributes,
};
pub use resolver::{child_ids, is_feature, TreeNode, TreeResolver, WorkItemTree};
