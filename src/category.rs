use vstd::prelude::*;

verus! {

/// Number of topics in the fixed category set.
pub const CATEGORY_COUNT: usize = 20;

/// The closed set of trivia topics.
#[derive(Debug, Clone, Copy, PartialEq, Eq, Structural)]
pub enum Category {
    Animals,
    BrainTeasers,
    Celebrities,
    Entertainment,
    ForKids,
    General,
    Geography,
    History,
    Hobbies,
    Humanities,
    Literature,
    Movies,
    Music,
    People,
    ReligionFaith,
    ScienceTechnology,
    Sports,
    Television,
    VideoGames,
    World,
}

/// Position of a category in declaration order; catalogs are indexed by it.
pub open spec fn ordinal_of(c: Category) -> nat {
    match c {
        Category::Animals => 0,
        Category::BrainTeasers => 1,
        Category::Celebrities => 2,
        Category::Entertainment => 3,
        Category::ForKids => 4,
        Category::General => 5,
        Category::Geography => 6,
        Category::History => 7,
        Category::Hobbies => 8,
        Category::Humanities => 9,
        Category::Literature => 10,
        Category::Movies => 11,
        Category::Music => 12,
        Category::People => 13,
        Category::ReligionFaith => 14,
        Category::ScienceTechnology => 15,
        Category::Sports => 16,
        Category::Television => 17,
        Category::VideoGames => 18,
        Category::World => 19,
    }
}

/// The category at position `i` in declaration order.
#[verifier::opaque]
pub open spec fn category_at(i: int) -> Category {
    if i == 0 {
        Category::Animals
    } else if i == 1 {
        Category::BrainTeasers
    } else if i == 2 {
        Category::Celebrities
    } else if i == 3 {
        Category::Entertainment
    } else if i == 4 {
        Category::ForKids
    } else if i == 5 {
        Category::General
    } else if i == 6 {
        Category::Geography
    } else if i == 7 {
        Category::History
    } else if i == 8 {
        Category::Hobbies
    } else if i == 9 {
        Category::Humanities
    } else if i == 10 {
        Category::Literature
    } else if i == 11 {
        Category::Movies
    } else if i == 12 {
        Category::Music
    } else if i == 13 {
        Category::People
    } else if i == 14 {
        Category::ReligionFaith
    } else if i == 15 {
        Category::ScienceTechnology
    } else if i == 16 {
        Category::Sports
    } else if i == 17 {
        Category::Television
    } else if i == 18 {
        Category::VideoGames
    } else {
        Category::World
    }
}

/// Distinct categories have distinct positions, all below `CATEGORY_COUNT`,
/// and a category's position leads back to it.
pub proof fn lemma_ordinal_injective(a: Category, b: Category)
    ensures
        ordinal_of(a) < CATEGORY_COUNT,
        ordinal_of(a) == ordinal_of(b) ==> a == b,
        category_at(ordinal_of(a) as int) == a,
{
    reveal(category_at);
}

impl Category {
    /// Position of this category in declaration order.
    pub fn ordinal(self) -> (r: usize)
        ensures
            r as nat == ordinal_of(self),
            r < CATEGORY_COUNT,
    {
        match self {
            Category::Animals => 0,
            Category::BrainTeasers => 1,
            Category::Celebrities => 2,
            Category::Entertainment => 3,
            Category::ForKids => 4,
            Category::General => 5,
            Category::Geography => 6,
            Category::History => 7,
            Category::Hobbies => 8,
            Category::Humanities => 9,
            Category::Literature => 10,
            Category::Movies => 11,
            Category::Music => 12,
            Category::People => 13,
            Category::ReligionFaith => 14,
            Category::ScienceTechnology => 15,
            Category::Sports => 16,
            Category::Television => 17,
            Category::VideoGames => 18,
            Category::World => 19,
        }
    }

    /// The category at position `i` in declaration order.
    pub fn from_ordinal(i: usize) -> (r: Category)
        requires
            i < CATEGORY_COUNT,
        ensures
            r == category_at(i as int),
            ordinal_of(r) == i,
    {
        reveal(category_at);
        match i {
            0 => Category::Animals,
            1 => Category::BrainTeasers,
            2 => Category::Celebrities,
            3 => Category::Entertainment,
            4 => Category::ForKids,
            5 => Category::General,
            6 => Category::Geography,
            7 => Category::History,
            8 => Category::Hobbies,
            9 => Category::Humanities,
            10 => Category::Literature,
            11 => Category::Movies,
            12 => Category::Music,
            13 => Category::People,
            14 => Category::ReligionFaith,
            15 => Category::ScienceTechnology,
            16 => Category::Sports,
            17 => Category::Television,
            18 => Category::VideoGames,
            _ => Category::World,
        }
    }

    /// Base name of the resource text that holds this category's questions.
    pub fn resource_name(self) -> &'static str {
        match self {
            Category::Animals => "animals",
            Category::BrainTeasers => "brain-teasers",
            Category::Celebrities => "celebrities",
            Category::Entertainment => "entertainment",
            Category::ForKids => "for-kids",
            Category::General => "general",
            Category::Geography => "geography",
            Category::History => "history",
            Category::Hobbies => "hobbies",
            Category::Humanities => "humanities",
            Category::Literature => "literature",
            Category::Movies => "movies",
            Category::Music => "music",
            Category::People => "people",
            Category::ReligionFaith => "religion-faith",
            Category::ScienceTechnology => "science-technology",
            Category::Sports => "sports",
            Category::Television => "television",
            Category::VideoGames => "video-games",
            Category::World => "world",
        }
    }
}

} // verus!
