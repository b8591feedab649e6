# diorama

A ray-traced voxel diorama in two levels: below, the Nether (netherrack
floor, a hanging sea of lava, glowstone, columns and an obsidian portal);
above a stone layer, the overworld (terrain from `y = 9` to `y = 16`, water
up to the sea level `y = 11`, a wooden cabin with glass windows on
flattened ground, a second portal, torches and trees). It is rendered with
Blinn-Phong shading, shadows, reflection and refraction.

`src/` is the verified library (Verus):

- `world` — the sparse voxel world and the bounding box of its cells;
- `scene` — the diorama's layout, built from a terrain height map and the
  Nether's relief, with the laws it keeps;
- `noise` — the integer hashes behind the value noise;
- `numeral` — decimal formatting and `from_str`-style parsing;
- `ppm`, `bmp` — the P6 PPM codec and the 24-bit BMP encoder;
- `cli`, `request`, `render` — command-line arguments, the viewer's
  request routing and the render settings.

`app/` is the program around it: the floating-point renderer (vectors,
camera, materials, textures, sky, ray traversal, shading), the threads,
file output and the HTTP viewer.
