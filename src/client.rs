use vstd::prelude::*;

use crate::content::push_chars;

verus! {

broadcast use vstd::string::group_string_axioms;

/// The GraphQL query that fetches one post with everything needed to render it.
pub const QUERY_TEXT: &'static str = "query PostHandler($postId:ID!) {
    postResult(id: $postId) { 
        ... on Post { 
            title, 
            id, 
            mediumUrl, 
            previewImage { 
                id, 
                originalHeight, 
                originalWidth  
            }, 
            latestPublishedAt, 
            updatedAt, 
            createdAt, 
            creator { 
                id, 
                name, 
                username, 
                bio
            }, 
            readingTime, 
            clapCount, 
            tags { 
                id, 
                displayTitle, 
                normalizedTagSlug
            }, 
            topics { 
                topicId, 
                name
            }, 
            content { 
                bodyModel { 
                    paragraphs { 
                        id, 
                        text, 
                        href, 
                        type, 
                        layout, 
                        iframe {
                            mediaResource {
                                id,
                                iframeSrc,
                                iframeHeight,
                                iframeWidth,
                                title,
                            }
                        },
                        metadata { 
                            id, 
                            originalHeight, 
                            originalWidth, 
                            alt 
                        }, 
                        markups {
                            start, 
                            end, 
                            type, 
                            href 
                        } 
                    }
                }
            } 
        } 
    } 
}";

/// The body of a post query: operation name, query text and its variables.
#[derive(Debug)]
pub struct QueryRequest {
    pub operation_name: String,
    pub query: String,
    pub variables: Vec<(String, String)>,
}

/// The body of a post.
#[derive(Debug)]
pub struct Content {
    pub body_model: BodyModel,
}

/// The paragraphs of a post body.
#[derive(Debug)]
pub struct BodyModel {
    pub paragraphs: Vec<Paragraph>,
}

/// One paragraph of a post: its kind (`P`, `H1`, `IMG`, ...), text and markups.
#[derive(Debug)]
pub struct Paragraph {
    pub id: String,
    pub href: Option<String>,
    pub layout: Option<String>,
    pub text: Option<String>,
    pub kind: String,
    pub markups: Vec<Markup>,
    pub metadata: Option<Metadata>,
    pub iframe: Option<IFrame>,
}

/// An embedded frame.
#[derive(Debug)]
pub struct IFrame {
    pub media_resource: IFrameMediaResource,
}

/// What an embedded frame shows.
#[derive(Debug)]
pub struct IFrameMediaResource {
    pub id: String,
    pub iframe_src: String,
    pub iframe_height: usize,
    pub iframe_width: usize,
    pub title: String,
}

/// Image metadata of a paragraph.
#[derive(Debug)]
pub struct Metadata {
    pub alt: Option<String>,
    pub id: String,
    pub original_width: usize,
    pub original_height: usize,
}

/// An inline markup range: inclusive UTF-16 offsets `[start, end]`, its kind
/// (`STRONG`, `EM`, `A`) and, for links, the target.
#[derive(Debug)]
pub struct Markup {
    pub end: usize,
    pub start: usize,
    pub href: Option<String>,
    pub kind: String,
}

/// A topic of a post.
#[derive(Debug)]
pub struct Topic {
    pub topic_id: String,
    pub name: String,
}

/// A tag of a post.
#[derive(Debug)]
pub struct Tag {
    pub id: String,
    pub display_title: String,
    pub normalized_tag_slug: String,
}

/// The author of a post.
#[derive(Debug)]
pub struct Creator {
    pub id: String,
    pub username: String,
    pub name: String,
    pub bio: String,
}

/// The preview image of a post.
#[derive(Debug)]
pub struct PreviewImage {
    pub id: String,
    pub original_width: Option<usize>,
    pub original_height: Option<usize>,
}

/// The client that fetches posts over the network.
pub struct Client;

/// The characters of the operation name of the post query.
pub open spec fn operation_name_chars() -> Seq<char> {
    seq!['P', 'o', 's', 't', 'H', 'a', 'n', 'd', 'l', 'e', 'r']
}

/// The characters of the variable that carries the post id.
pub open spec fn post_id_key() -> Seq<char> {
    seq!['p', 'o', 's', 't', 'I', 'd']
}

/// The query request for post `post_id`.
pub fn create_post_query(post_id: &str) -> (r: QueryRequest)
    ensures
        r.operation_name@ == operation_name_chars(),
        r.query@ == QUERY_TEXT@,
        r.variables@.len() == 1,
        r.variables@[0].0@ == post_id_key(),
        r.variables@[0].1@ == post_id@,
{
    let mut key = String::new();
    push_chars(&mut key, &['p', 'o', 's', 't', 'I', 'd']);
    let mut variables: Vec<(String, String)> = Vec::new();
    variables.push((key, String::from_str(post_id)));
    let mut operation_name = String::new();
    push_chars(&mut operation_name, &['P', 'o', 's', 't', 'H', 'a', 'n', 'd', 'l', 'e', 'r']);
    QueryRequest { operation_name, query: String::from_str(QUERY_TEXT), variables }
}

} // verus!
