//! The record the fuzzy search data set is read from.
use vstd::prelude::*;

verus! {

/// A scraped website as stored in the data set file.
pub struct WebsiteData {
    pub id: u64,
    pub title: String,
    pub content: String,
    pub url: String,
    pub tags: Vec<usize>,
}

/// The contents of all websites, separated by `", "`.
pub open spec fn joined_contents(contents: Seq<Seq<char>>) -> Seq<char>
    decreases contents.len(),
{
    if contents.len() == 0 {
        seq![]
    } else if contents.len() == 1 {
        contents[0]
    } else {
        joined_contents(contents.drop_last()) + seq![',', ' '] + contents.last()
    }
}

pub open spec fn contents_of(data: Seq<WebsiteData>) -> Seq<Seq<char>> {
    data.map_values(|d: WebsiteData| d.content@)
}

/// The text the whole data set is matched against: every content, joined
/// by `", "`.
pub fn website_data_string(data: &Vec<WebsiteData>) -> (s: String)
    ensures
        s@ == joined_contents(contents_of(data@)),
{
    let ghost cv = contents_of(data@);
    let mut s = String::new();
    let mut i: usize = 0;
    while i < data.len()
        invariant
            cv == contents_of(data@),
            i <= data.len(),
            s@ == joined_contents(cv.take(i as int)),
        decreases data.len() - i,
    {
        let ghost t = cv.take(i + 1);
        assert(t.drop_last() =~= cv.take(i as int));
        assert(t.last() == data@[i as int].content@);
        if i > 0 {
            s.append(", ");
            proof {
                reveal_strlit(", ");
                assert(", "@ =~= seq![',', ' ']);
            }
        }
        s.append(data[i].content.as_str());
        proof {
            if i == 0 {
                assert(s@ =~= t[0]);
            } else {
                assert(s@ =~= joined_contents(t.drop_last()) + seq![',', ' '] + t.last());
            }
        }
        i += 1;
    }
    assert(cv.take(data.len() as int) =~= cv);
    s
}

} // verus!
