//! The ticket sites: how each one's pages and answers become events.

pub mod biletix;
pub mod bubilet;
pub mod biletinial;



use vstd::prelude::*;
use crate::config::Config;
use crate::model::SourceId;

verus! {

/// The sources switched on in the settings, in the order Bubilet, Biletinial, Biletix.
pub open spec fn enabled_spec(bubilet: bool, biletinial: bool, biletix: bool) -> Seq<SourceId> {
    (if bubilet { seq![SourceId::Bubilet] } else { Seq::<SourceId>::empty() })
        + (if biletinial { seq![SourceId::Biletinial] } else { Seq::<SourceId>::empty() })
        + (if biletix { seq![SourceId::Biletix] } else { Seq::<SourceId>::empty() })
}

/// The sources switched on in the settings.
pub fn enabled(cfg: &Config) -> (r: Vec<SourceId>)
    ensures
        r@ == enabled_spec(cfg.sources.bubilet, cfg.sources.biletinial, cfg.sources.biletix),
{
    let mut v: Vec<SourceId> = Vec::new();
    if cfg.sources.bubilet {
        v.push(SourceId::Bubilet);
    }
    if cfg.sources.biletinial {
        v.push(SourceId::Biletinial);
    }
    if cfg.sources.biletix {
        v.push(SourceId::Biletix);
    }
    assert(v@ =~= enabled_spec(cfg.sources.bubilet, cfg.sources.biletinial, cfg.sources.biletix));
    v
}

} // verus!
