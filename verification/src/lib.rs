//! Static-site builder core: placeholder substitution over templates,
//! post metadata derivation, and the page-build pipeline.

pub mod chars;
pub mod date;
pub mod markdown;
pub mod pipeline;
pub mod post_metadata;
pub mod scan;
pub mod template;
pub mod text;

use vstd::prelude::*;

verus! {

/// Which on-disk template file to load; each maps to one file under the
/// fixed templates directory.
#[derive(Debug, PartialEq, Eq, Structural, Clone, Copy)]
pub enum TemplateType {
    PostSummary,
    PostList,
    Post,
}

/// The path of each template file.
pub open spec fn template_path_spec(t: TemplateType) -> Seq<char> {
    match t {
        TemplateType::PostSummary => "../templates/post_summary.templ"@,
        TemplateType::PostList => "../templates/post_list.templ"@,
        TemplateType::Post => "../templates/post.templ"@,
    }
}

impl TemplateType {
    /// The on-disk path of this template's file.
    pub fn to_path(&self) -> (r: String)
        ensures
            r@ == template_path_spec(*self),
    {
        match self {
            TemplateType::PostSummary => String::from_str("../templates/post_summary.templ"),
            TemplateType::PostList => String::from_str("../templates/post_list.templ"),
            TemplateType::Post => String::from_str("../templates/post.templ"),
        }
    }
}

/// A post ready to render: its metadata and its HTML body.
#[derive(Debug, Clone)]
pub struct Post {
    pub metadata: post_metadata::PostMetadata,
    pub content: String,
}

/// The route (relative URL) of the page generated for a file stem.
pub open spec fn page_route_spec(file_name: Seq<char>) -> Seq<char> {
    "./pages/"@ + file_name + ".html"@
}

/// The on-disk path of the page generated for a file stem.
pub open spec fn page_path_spec(file_name: Seq<char>) -> Seq<char> {
    "../pages/"@ + file_name + ".html"@
}

/// The route (relative URL) of a post's generated page.
pub fn page_route(file_name: &str) -> (r: String)
    ensures
        r@ == page_route_spec(file_name@),
{
    let mut out = String::from_str("./pages/");
    out.append(file_name);
    out.append(".html");
    out
}

/// The on-disk path of a post's generated page.
pub fn page_path(file_name: &str) -> (r: String)
    ensures
        r@ == page_path_spec(file_name@),
{
    let mut out = String::from_str("../pages/");
    out.append(file_name);
    out.append(".html");
    out
}

} // verus!
