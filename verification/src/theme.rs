//! Ready-made colour schemes.

use vstd::prelude::*;
use crate::layer::Layer;
use crate::svg_exporter::{Svg, SvgView};

verus! {

/// A drawing in the loud scheme: a dark blue background, orange buildings, green
/// parks and red transit lines.
pub open spec fn puke_themed(svg: SvgView) -> SvgView {
    svg.with_background_color("#1f2345"@).with_style(
        Layer::Road,
        "road"@,
        "fill:none; stroke:#8b8ca9; stroke-width:0.07%; stroke-linecap:round"@,
    ).with_style(
        Layer::Building,
        "building"@,
        "fill:#dc9433; stroke:#000; stroke-width:0.01px"@,
    ).with_style(
        Layer::ParkBuilding,
        "park-building"@,
        "fill:#ff0000; stroke:#f44336; stroke-width:0.1px"@,
    ).with_style(
        Layer::ParkPath,
        "park-path"@,
        "fill:none; stroke:#e841f4; stroke-width:0.01px"@,
    ).with_style(
        Layer::Coastline,
        "coastline"@,
        "fill:#eee; stroke:white; stroke-width:1px"@,
    ).with_style(
        Layer::Subway,
        "road"@,
        "fill:none; stroke:#ff0000; stroke-width:0.07%; stroke-linecap:round"@,
    ).with_style(Layer::Park, "park"@, "fill:#42f442; stroke:none;"@)
}

/// A drawing in the quiet scheme: a white background and shades of grey, with the
/// transit lines alone in red.
pub open spec fn gray_themed(svg: SvgView) -> SvgView {
    svg.with_background_color("#fff"@).with_style(
        Layer::Road,
        "road"@,
        "fill:none; stroke:#bbb; stroke-width:0.07%; stroke-linecap:round"@,
    ).with_style(Layer::Building, "building"@, "fill:#fff; stroke:none;"@).with_style(
        Layer::ParkBuilding,
        "park-building"@,
        "fill:#777; stroke:none;"@,
    ).with_style(
        Layer::ParkPath,
        "park-path"@,
        "fill:none; stroke:#777; stroke-width:0.01px"@,
    ).with_style(
        Layer::Subway,
        "subway"@,
        "fill:none; stroke:#ff0000; stroke-width:0.3%; stroke-linecap:round"@,
    ).with_style(Layer::Coastline, "coastline"@, "fill:#777; stroke:none;"@).with_style(
        Layer::Park,
        "park"@,
        "fill:#777; stroke:none;"@,
    )
}

/// Gives a drawing the loud scheme. The background colour and the style of every
/// layer are replaced; what was drawn and how layers are clipped stay.
pub fn puke_theme(svg: &mut Svg)
    ensures
        final(svg)@ == puke_themed(old(svg)@),
{
    svg.set_background_color("#1f2345");

    svg.set_style(
        Layer::Road,
        "road",
        "fill:none; stroke:#8b8ca9; stroke-width:0.07%; stroke-linecap:round",
    );

    svg.set_style(Layer::Building, "building", "fill:#dc9433; stroke:#000; stroke-width:0.01px");

    svg.set_style(
        Layer::ParkBuilding,
        "park-building",
        "fill:#ff0000; stroke:#f44336; stroke-width:0.1px",
    );

    svg.set_style(
        Layer::ParkPath,
        "park-path",
        "fill:none; stroke:#e841f4; stroke-width:0.01px",
    );

    svg.set_style(Layer::Coastline, "coastline", "fill:#eee; stroke:white; stroke-width:1px");

    svg.set_style(
        Layer::Subway,
        "road",
        "fill:none; stroke:#ff0000; stroke-width:0.07%; stroke-linecap:round",
    );

    svg.set_style(Layer::Park, "park", "fill:#42f442; stroke:none;");
}

/// Gives a drawing the quiet scheme. The background colour and the style of every
/// layer are replaced; what was drawn and how layers are clipped stay.
pub fn gray_theme(svg: &mut Svg)
    ensures
        final(svg)@ == gray_themed(old(svg)@),
{
    svg.set_background_color("#fff");

    svg.set_style(
        Layer::Road,
        "road",
        "fill:none; stroke:#bbb; stroke-width:0.07%; stroke-linecap:round",
    );

    svg.set_style(Layer::Building, "building", "fill:#fff; stroke:none;");

    svg.set_style(Layer::ParkBuilding, "park-building", "fill:#777; stroke:none;");

    svg.set_style(Layer::ParkPath, "park-path", "fill:none; stroke:#777; stroke-width:0.01px");

    svg.set_style(
        Layer::Subway,
        "subway",
        "fill:none; stroke:#ff0000; stroke-width:0.3%; stroke-linecap:round",
    );

    svg.set_style(Layer::Coastline, "coastline", "fill:#777; stroke:none;");
    svg.set_style(Layer::Park, "park", "fill:#777; stroke:none;");
}

} // verus!
