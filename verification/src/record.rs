//! The structured result of one successful fetch.
use vstd::prelude::*;

verus! {

/// One sighting record: the identifier and source URL are set only once a
/// fetch has succeeded; the remaining fields are the named attributes
/// extracted from the page.
#[derive(Debug, Clone)]
pub struct SightingRecord {
    pub sighting_id: Option<u64>,
    pub url: Option<String>,
    pub common_name: String,
    pub scientific_name: String,
    pub species_link: String,
    pub observation_date: String,
    pub submitted_by: String,
    pub specimen_type: String,
    pub status: String,
    pub verified_by: String,
    pub verified_date: String,
    pub checklist_regions: String,
}

impl SightingRecord {
    /// A record with no identifier, no URL, and every attribute empty: the
    /// transient value extraction starts from.
    pub open spec fn is_blank(self) -> bool {
        &&& self.sighting_id is None
        &&& self.url is None
        &&& self.common_name@.len() == 0
        &&& self.scientific_name@.len() == 0
        &&& self.species_link@.len() == 0
        &&& self.observation_date@.len() == 0
        &&& self.submitted_by@.len() == 0
        &&& self.specimen_type@.len() == 0
        &&& self.status@.len() == 0
        &&& self.verified_by@.len() == 0
        &&& self.verified_date@.len() == 0
        &&& self.checklist_regions@.len() == 0
    }

    /// Both records carry the same extracted attributes; the identifier and
    /// URL stamps are allowed to differ.
    pub open spec fn same_attributes(self, other: Self) -> bool {
        &&& self.common_name == other.common_name
        &&& self.scientific_name == other.scientific_name
        &&& self.species_link == other.species_link
        &&& self.observation_date == other.observation_date
        &&& self.submitted_by == other.submitted_by
        &&& self.specimen_type == other.specimen_type
        &&& self.status == other.status
        &&& self.verified_by == other.verified_by
        &&& self.verified_date == other.verified_date
        &&& self.checklist_regions == other.checklist_regions
    }

    /// Stamp the identifier and source URL onto a freshly extracted record.
    pub fn stamp(self, sighting_id: u64, url: String) -> (r: Self)
        ensures
            r.sighting_id == Some(sighting_id),
            r.url == Some(url),
            r.same_attributes(self),
    {
        let mut r = self;
        r.sighting_id = Some(sighting_id);
        r.url = Some(url);
        r
    }
}

impl Default for SightingRecord {
    /// The blank record.
    fn default() -> (r: Self)
        ensures
            r.is_blank(),
    {
        SightingRecord {
            sighting_id: None,
            url: None,
            common_name: String::new(),
            scientific_name: String::new(),
            species_link: String::new(),
            observation_date: String::new(),
            submitted_by: String::new(),
            specimen_type: String::new(),
            status: String::new(),
            verified_by: String::new(),
            verified_date: String::new(),
            checklist_regions: String::new(),
        }
    }
}

} // verus!
